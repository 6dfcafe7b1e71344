//! The encoder: a state machine that picks, for each pixel, the smallest
//! chunk that the decoder turns back into it.

use vstd::prelude::*;

use crate::chunk::{write_qoi_chunk, QoiChunk};
use crate::color_space::{byte_of, ColorSpace};
use crate::consts::{MAGIC, MAX_RUN};
use crate::decoder::magic;
use crate::error::EncoderError;
use crate::io::{
    be_bytes, extends_with_part, lemma_part_after_whole, lemma_part_of_longer, u32_to_be, Write,
};
use crate::pixel::{empty_cache, start_pixel, Pixel};

verus! {

/// The encoder's state between two pixels.
pub struct EncodeState {
    /// The pixel last seen.
    pub prev: Pixel,
    /// The 64 cache slots.
    pub cache: Seq<Pixel>,
    /// Repeats of `prev` seen and not yet written out.
    pub run: nat,
}

pub open spec fn start_encode() -> EncodeState {
    EncodeState { prev: start_pixel(), cache: empty_cache(), run: 0 }
}

/// The chunk for a run of `count` equal pixels, 1 to 8224.
pub open spec fn run_chunk(count: nat) -> QoiChunk {
    if count < 33 {
        QoiChunk::Run8((count - 1) as u8)
    } else {
        QoiChunk::Run16((count - 33) as u16)
    }
}

/// The literal of a channel whose value changed.
pub open spec fn changed(delta: int, value: u8) -> Option<u8> {
    if delta != 0 {
        Some(value)
    } else {
        None
    }
}

/// The smallest delta form that takes `prev` to `p`: Diff8, Diff16 or Diff24
/// when every delta is in its range, else a Color chunk of the channels that
/// changed.
pub open spec fn delta_chunk(prev: Pixel, p: Pixel) -> QoiChunk {
    let dr = p.r - prev.r;
    let dg = p.g - prev.g;
    let db = p.b - prev.b;
    let da = p.a - prev.a;
    if -2 <= dr <= 1 && -2 <= dg <= 1 && -2 <= db <= 1 && da == 0 {
        QoiChunk::Diff8((dr + 2) as u8, (dg + 2) as u8, (db + 2) as u8)
    } else if -16 <= dr <= 15 && -8 <= dg <= 7 && -8 <= db <= 7 && da == 0 {
        QoiChunk::Diff16((dr + 16) as u8, (dg + 8) as u8, (db + 8) as u8)
    } else if -16 <= dr <= 15 && -16 <= dg <= 15 && -16 <= db <= 15 && -16 <= da <= 15 {
        QoiChunk::Diff24((dr + 16) as u8, (dg + 16) as u8, (db + 16) as u8, (da + 16) as u8)
    } else {
        QoiChunk::Color(changed(dr, p.r), changed(dg, p.g), changed(db, p.b), changed(da, p.a))
    }
}

/// The chunk for a pixel that differs from the previous one: an Index chunk
/// if the cache holds it, else its delta chunk.
pub open spec fn new_pixel_chunk(s: EncodeState, p: Pixel) -> QoiChunk {
    if s.cache[p.slot()] == p {
        QoiChunk::Index(p.slot() as u8)
    } else {
        delta_chunk(s.prev, p)
    }
}

/// One pixel through the encoder: the new state and the chunks written. A run
/// is written out when it reaches its cap, when the pixel differs, or at the
/// last pixel; a differing pixel then gets an Index chunk if the cache holds
/// it, else its delta chunk. Every pixel, repeats included, is stored in the
/// cache.
pub open spec fn encode_step(s: EncodeState, p: Pixel, last: bool) -> (EncodeState, Seq<QoiChunk>) {
    let run = if p == s.prev {
        s.run + 1
    } else {
        s.run
    };
    let flush = run > 0 && (run == MAX_RUN || p != s.prev || last);
    let flushed = if flush {
        seq![run_chunk(run)]
    } else {
        seq![]
    };
    let run_after: nat = if flush {
        0
    } else {
        run
    };
    if p == s.prev {
        (EncodeState { cache: s.cache.update(p.slot(), p), run: run_after, ..s }, flushed)
    } else {
        (
            EncodeState { prev: p, cache: s.cache.update(p.slot(), p), run: run_after },
            flushed.push(new_pixel_chunk(s, p)),
        )
    }
}

/// The encoder after the first `n` of `pixels`: its state and the chunks
/// written so far.
pub open spec fn encode_prefix(pixels: Seq<Pixel>, n: nat) -> (EncodeState, Seq<QoiChunk>)
    decreases n,
{
    if n == 0 {
        (start_encode(), seq![])
    } else {
        let (s, chunks) = encode_prefix(pixels, (n - 1) as nat);
        let (s2, more) = encode_step(s, pixels[n - 1], n == pixels.len());
        (s2, chunks + more)
    }
}

/// The chunks that encode `pixels`.
pub open spec fn encode_chunks(pixels: Seq<Pixel>) -> Seq<QoiChunk> {
    encode_prefix(pixels, pixels.len()).1
}

/// The bytes of a sequence of chunks.
pub open spec fn chunks_bytes(chunks: Seq<QoiChunk>) -> Seq<u8>
    decreases chunks.len(),
{
    if chunks.len() == 0 {
        seq![]
    } else {
        chunks_bytes(chunks.drop_last()) + chunks.last().spec_bytes()
    }
}

/// The pixels of a buffer of `channels` bytes per pixel; alpha is opaque when
/// there are three.
pub open spec fn pixels_of(buf: Seq<u8>, channels: nat) -> Seq<Pixel> {
    Seq::new(
        buf.len() / channels,
        |i: int|
            Pixel {
                r: buf[i * channels],
                g: buf[i * channels + 1],
                b: buf[i * channels + 2],
                a: if channels == 4 {
                    buf[i * channels + 3]
                } else {
                    255
                },
            },
    )
}

pub open spec fn header_bytes(width: u32, height: u32, channels: u8, color_space: ColorSpace) -> Seq<
    u8,
> {
    magic() + be_bytes(width) + be_bytes(height) + seq![channels, byte_of(color_space)]
}

/// The whole stream for an image: header, chunks, and the zero trailer.
pub open spec fn encode_image(
    buf: Seq<u8>,
    width: u32,
    height: u32,
    channels: u8,
    color_space: ColorSpace,
) -> Seq<u8> {
    header_bytes(width, height, channels, color_space) + chunks_bytes(
        encode_chunks(pixels_of(buf, channels as nat)),
    ) + seq![0u8, 0, 0, 0]
}

/// `count` copies of one pixel.
pub open spec fn uniform(p: Pixel, count: nat) -> Seq<Pixel> {
    Seq::new(count, |j: int| p)
}

proof fn lemma_uniform_start_prefix(count: nat, i: nat)
    requires
        i < count,
        i < MAX_RUN,
    ensures
        encode_prefix(uniform(start_pixel(), count), i) == (
            EncodeState {
                prev: start_pixel(),
                cache: if i == 0 {
                    empty_cache()
                } else {
                    empty_cache().update(start_pixel().slot(), start_pixel())
                },
                run: i,
            },
            Seq::<QoiChunk>::empty(),
        ),
    decreases i,
{
    if i > 0 {
        lemma_uniform_start_prefix(count, (i - 1) as nat);
        let c = empty_cache().update(start_pixel().slot(), start_pixel());
        assert(c.update(start_pixel().slot(), start_pixel()) =~= c);
        assert(Seq::<QoiChunk>::empty() + Seq::<QoiChunk>::empty() =~= Seq::<QoiChunk>::empty());
    }
}

#[verifier::rlimit(40)]
proof fn lemma_uniform_other_prefix(p: Pixel, count: nat, i: nat)
    requires
        p != start_pixel(),
        1 <= i < count,
        i <= MAX_RUN,
    ensures
        encode_prefix(uniform(p, count), i) == (
            EncodeState {
                prev: p,
                cache: empty_cache().update(p.slot(), p),
                run: (i - 1) as nat,
            },
            seq![new_pixel_chunk(start_encode(), p)],
        ),
    decreases i,
{
    let first = seq![new_pixel_chunk(start_encode(), p)];
    let px = uniform(p, count);
    assert(px[i - 1] == p);
    if i > 1 {
        lemma_uniform_other_prefix(p, count, (i - 1) as nat);
        let c = empty_cache().update(p.slot(), p);
        assert(c.update(p.slot(), p) =~= c);
        assert(first + Seq::<QoiChunk>::empty() =~= first);
    } else {
        assert(encode_prefix(px, 0) == (start_encode(), Seq::<QoiChunk>::empty()));
        let step = encode_step(start_encode(), p, 1 == count);
        assert(step.0 == EncodeState { prev: p, cache: empty_cache().update(p.slot(), p), run: 0 });
        assert(step.1 == Seq::<QoiChunk>::empty().push(new_pixel_chunk(start_encode(), p)));
        assert(Seq::<QoiChunk>::empty() + Seq::<QoiChunk>::empty().push(
            new_pixel_chunk(start_encode(), p),
        ) =~= first);
    }
}

/// Runs of one pixel: `count` copies of the start pixel (opaque black), for
/// `count` up to 8224, encode as the one run chunk for `count` pixels (a Run8
/// up to 32, a Run16 from 33); `count + 1` copies of any other pixel encode
/// as that pixel's own chunk and then the run chunk for `count`; and 8225
/// copies of the start pixel encode as a full Run16 and a Run8 of one pixel.
#[verifier::rlimit(40)]
pub proof fn lemma_run_boundaries(p: Pixel, count: nat)
    requires
        1 <= count <= MAX_RUN,
    ensures
        encode_chunks(uniform(start_pixel(), count)) == seq![run_chunk(count)],
        p != start_pixel() ==> encode_chunks(uniform(p, count + 1)) == seq![
            new_pixel_chunk(start_encode(), p),
            run_chunk(count),
        ],
        encode_chunks(uniform(start_pixel(), (MAX_RUN + 1) as nat)) == seq![
            run_chunk(MAX_RUN as nat),
            run_chunk(1),
        ],
        run_chunk(32) == QoiChunk::Run8(31),
        run_chunk(33) == QoiChunk::Run16(0),
        run_chunk(MAX_RUN as nat) == QoiChunk::Run16(0x1fff),
        run_chunk(1) == QoiChunk::Run8(0),
{
    lemma_uniform_start_prefix(count, (count - 1) as nat);
    assert(Seq::<QoiChunk>::empty() + seq![run_chunk(count)] =~= seq![run_chunk(count)]);
    if p != start_pixel() {
        lemma_uniform_other_prefix(p, count + 1, count);
        assert(seq![new_pixel_chunk(start_encode(), p)] + seq![run_chunk(count)] =~= seq![
            new_pixel_chunk(start_encode(), p),
            run_chunk(count),
        ]);
    }
    let full = (MAX_RUN + 1) as nat;
    let px = uniform(start_pixel(), full);
    lemma_uniform_start_prefix(full, (MAX_RUN - 1) as nat);
    let at_cap = encode_prefix(px, MAX_RUN as nat);
    assert(at_cap.1 =~= seq![run_chunk(MAX_RUN as nat)]);
    assert(at_cap.0.run == 0);
    assert(encode_prefix(px, full).1 =~= seq![run_chunk(MAX_RUN as nat), run_chunk(1)]);
}

/// Between two pixels, the delta forms are tried from the smallest: red,
/// green and blue deltas in -2..=1 with alpha unchanged give a Diff8; deltas
/// within the Diff16 ranges but not all within -2..=1 give a Diff16; a delta
/// outside -16..=15 on any channel gives a Color chunk.
pub proof fn lemma_diff_tiers(prev: Pixel, p: Pixel)
    ensures
        ({
            let dr = p.r - prev.r;
            let dg = p.g - prev.g;
            let db = p.b - prev.b;
            let da = p.a - prev.a;
            let small = -2 <= dr <= 1 && -2 <= dg <= 1 && -2 <= db <= 1;
            let medium = -16 <= dr <= 15 && -8 <= dg <= 7 && -8 <= db <= 7;
            let wide = -16 <= dr <= 15 && -16 <= dg <= 15 && -16 <= db <= 15 && -16 <= da <= 15;
            &&& small && da == 0 ==> delta_chunk(prev, p) is Diff8
            &&& medium && !small && da == 0 ==> delta_chunk(prev, p) is Diff16
            &&& !wide ==> delta_chunk(prev, p) is Color
        }),
{
}

/// The delta chunk from `prev` to `p`.
#[verifier::rlimit(40)]
fn pick_delta_chunk(prev: Pixel, p: Pixel) -> (r: QoiChunk)
    ensures
        r == delta_chunk(prev, p),
        r.wf(),
{
    let r = p.r as i16 - prev.r as i16;
    let g = p.g as i16 - prev.g as i16;
    let b = p.b as i16 - prev.b as i16;
    let a = p.a as i16 - prev.a as i16;
    if -2 <= r && r <= 1 && -2 <= g && g <= 1 && -2 <= b && b <= 1 && a == 0 {
        QoiChunk::Diff8((r + 2) as u8, (g + 2) as u8, (b + 2) as u8)
    } else if -16 <= r && r <= 15 && -8 <= g && g <= 7 && -8 <= b && b <= 7 && a == 0 {
        QoiChunk::Diff16((r + 16) as u8, (g + 8) as u8, (b + 8) as u8)
    } else if -16 <= r && r <= 15 && -16 <= g && g <= 15 && -16 <= b && b <= 15 && -16 <= a && a
        <= 15 {
        QoiChunk::Diff24((r + 16) as u8, (g + 16) as u8, (b + 16) as u8, (a + 16) as u8)
    } else {
        QoiChunk::Color(
            if r != 0 {
                Some(p.r)
            } else {
                None
            },
            if g != 0 {
                Some(p.g)
            } else {
                None
            },
            if b != 0 {
                Some(p.b)
            } else {
                None
            },
            if a != 0 {
                Some(p.a)
            } else {
                None
            },
        )
    }
}

/// The bytes of two sequences of chunks in a row.
pub proof fn lemma_chunks_bytes_concat(a: Seq<QoiChunk>, b: Seq<QoiChunk>)
    ensures
        chunks_bytes(a + b) == chunks_bytes(a) + chunks_bytes(b),
    decreases b.len(),
{
    if b.len() == 0 {
        assert(a + b =~= a);
        assert(chunks_bytes(a) + chunks_bytes(b) =~= chunks_bytes(a));
    } else {
        lemma_chunks_bytes_concat(a, b.drop_last());
        assert((a + b).drop_last() =~= a + b.drop_last());
        assert(chunks_bytes(a) + chunks_bytes(b) =~= chunks_bytes(a) + chunks_bytes(b.drop_last())
            + b.last().spec_bytes());
    }
}

/// The cache after each of `pixels` in turn is stored at its slot, starting
/// from the empty cache.
pub open spec fn cache_after(pixels: Seq<Pixel>) -> Seq<Pixel>
    decreases pixels.len(),
{
    if pixels.len() == 0 {
        empty_cache()
    } else {
        cache_after(pixels.drop_last()).update(pixels.last().slot(), pixels.last())
    }
}

/// The encoder stores every pixel it takes.
pub proof fn lemma_encoder_cache(pixels: Seq<Pixel>, k: nat)
    requires
        k <= pixels.len(),
    ensures
        encode_prefix(pixels, k).0.cache == cache_after(pixels.take(k as int)),
    decreases k,
{
    if k == 0 {
        assert(pixels.take(0) =~= Seq::<Pixel>::empty());
    } else {
        lemma_encoder_cache(pixels, (k - 1) as nat);
        assert(pixels.take(k as int).drop_last() =~= pixels.take(k - 1));
    }
}

/// The bytes of one chunk.
pub proof fn lemma_chunks_bytes_one(c: QoiChunk)
    ensures
        chunks_bytes(seq![c]) == c.spec_bytes(),
{
    let s = seq![c];
    assert(s.drop_last() =~= Seq::<QoiChunk>::empty());
    assert(chunks_bytes(s.drop_last()) == Seq::<u8>::empty());
    assert(Seq::<u8>::empty() + c.spec_bytes() =~= c.spec_bytes());
}

/// The chunks written after `i` pixels begin those written after `j >= i`.
#[verifier::rlimit(40)]
pub proof fn lemma_prefix_grows(pixels: Seq<Pixel>, i: nat, j: nat)
    requires
        i <= j <= pixels.len(),
    ensures
        encode_prefix(pixels, i).1.len() <= encode_prefix(pixels, j).1.len(),
        encode_prefix(pixels, j).1.take(encode_prefix(pixels, i).1.len() as int) == encode_prefix(
            pixels,
            i,
        ).1,
    decreases j - i,
{
    let ci = encode_prefix(pixels, i).1;
    if i < j {
        lemma_prefix_grows(pixels, i, (j - 1) as nat);
        let a = encode_prefix(pixels, (j - 1) as nat).1;
        let b = encode_prefix(pixels, j).1;
        assert(b.take(a.len() as int) =~= a);
        assert(b.take(ci.len() as int) =~= a.take(ci.len() as int));
    } else {
        assert(ci.take(ci.len() as int) =~= ci);
    }
}

/// The encoder's state while it takes the pixels of one image.
struct PixelState {
    prev: Pixel,
    index: [Pixel; 64],
    run: u16,
}

impl PixelState {
    spec fn view(&self) -> EncodeState {
        EncodeState { prev: self.prev, cache: self.index@, run: self.run as nat }
    }
}

/// Writes an image as a stream to a byte sink.
pub struct QoiEncoder<W> {
    writer: W,
}

impl<W: Write> QoiEncoder<W> {
    pub closed spec fn sink(&self) -> W {
        self.writer
    }

    pub fn new(writer: W) -> (r: Self)
        ensures
            r.sink() == writer,
    {
        Self { writer }
    }

    pub fn get_ref(&self) -> (r: &W)
        ensures
            *r == self.sink(),
    {
        &self.writer
    }

    pub fn into_inner(self) -> (r: W)
        ensures
            r == self.sink(),
    {
        self.writer
    }

    /// Writes the header, the chunks of the pixels in `buf` (`channels`
    /// bytes each), and the zero trailer.
#[verifier::rlimit(40)]
    pub fn encode(
        &mut self,
        buf: &[u8],
        width: u32,
        height: u32,
        channels: u8,
        color_space: ColorSpace,
    ) -> (r: Result<(), EncoderError>)
        requires
            channels == 3 || channels == 4,
        ensures
            r is Ok ==> final(self).sink().written() == old(self).sink().written() + encode_image(
                buf@,
                width,
                height,
                channels,
                color_space,
            ),
            r is Err ==> extends_with_part(
                old(self).sink().written(),
                final(self).sink().written(),
                encode_image(buf@, width, height, channels, color_space),
            ),
            old(self).sink().faultless() ==> r is Ok && final(self).sink().faultless(),
    {
        let ghost start = old(self).writer.written();
        let ghost faultless = old(self).writer.faultless();
        let ghost header = header_bytes(width, height, channels, color_space);
        let ghost image = encode_image(buf@, width, height, channels, color_space);
        let ghost all = encode_chunks(pixels_of(buf@, channels as nat));
        let ghost pad = seq![0u8, 0, 0, 0];
        proof {
            assert(image =~= header + chunks_bytes(all) + pad);
        }
        match self.put_header(width, height, channels, color_space) {
            Ok(()) => {},
            Err(e) => {
                proof {
                    lemma_part_of_longer(start, header, chunks_bytes(all) + pad, self.writer.written());
                    assert(header + (chunks_bytes(all) + pad) =~= image);
                }
                return Err(e);
            },
        }
        let ghost head = start + header_bytes(width, height, channels, color_space);
        let ch = channels as usize;
        let n = buf.len() / ch;
        let ghost pixels = pixels_of(buf@, ch as nat);
        let mut state = PixelState {
            prev: Pixel { r: 0, g: 0, b: 0, a: 255 },
            index: [Pixel { r: 0, g: 0, b: 0, a: 0 }; 64],
            run: 0,
        };
        let ghost mut chunks: Seq<QoiChunk> = seq![];
        proof {
            assert(state.index@ =~= empty_cache());
            assert(self.writer.written() =~= head + chunks_bytes(chunks));
        }
        assert(buf@.len() == buf.len());
        let mut i: usize = 0;
        while i < n
            invariant
                buf@.len() <= usize::MAX,
                ch == channels,
                ch == 3 || ch == 4,
                n == buf@.len() / (ch as nat),
                pixels == pixels_of(buf@, ch as nat),
                pixels.len() == n,
                0 <= i <= n,
                faultless == old(self).writer.faultless(),
                faultless ==> self.writer.faultless(),
                start == old(self).writer.written(),
                head == start + header_bytes(width, height, channels, color_space),
                header == header_bytes(width, height, channels, color_space),
                image == encode_image(buf@, width, height, channels, color_space),
                all == encode_chunks(pixels),
                pad == seq![0u8, 0, 0, 0],
                image == header + chunks_bytes(all) + pad,
                self.writer.written() == head + chunks_bytes(chunks),
                encode_prefix(pixels, i as nat) == (state.view(), chunks),
                state.run < MAX_RUN,
            decreases n - i,
        {
            assert(i * ch + ch <= buf@.len()) by (nonlinear_arith)
                requires
                    i < n,
                    n == buf@.len() / (ch as nat),
                    ch > 0,
            ;
            let at = i * ch;
            let p = Pixel {
                r: buf[at],
                g: buf[at + 1],
                b: buf[at + 2],
                a: if ch == 4 {
                    buf[at + 3]
                } else {
                    255
                },
            };
            assert(p == pixels[i as int]);
            let ghost before = state.view();
            match self.encode_pixel(&mut state, p, i + 1 == n) {
                Ok(()) => {},
                Err(e) => {
                    proof {
                        let more = encode_step(before, p, i + 1 == n).1;
                        let done = chunks + more;
                        assert(head + chunks_bytes(chunks) =~= start + (header + chunks_bytes(
                            chunks,
                        )));
                        lemma_part_after_whole(
                            start,
                            header + chunks_bytes(chunks),
                            chunks_bytes(more),
                            self.writer.written(),
                        );
                        lemma_chunks_bytes_concat(chunks, more);
                        assert(encode_prefix(pixels, (i + 1) as nat).1 == done);
                        lemma_prefix_grows(pixels, (i + 1) as nat, n as nat);
                        let rest = all.skip(done.len() as int);
                        assert(all =~= done + rest);
                        lemma_chunks_bytes_concat(done, rest);
                        assert(header + chunks_bytes(chunks) + chunks_bytes(more) =~= header
                            + chunks_bytes(done));
                        lemma_part_of_longer(
                            start,
                            header + chunks_bytes(done),
                            chunks_bytes(rest) + pad,
                            self.writer.written(),
                        );
                        assert(header + chunks_bytes(done) + (chunks_bytes(rest) + pad) =~= image);
                    }
                    return Err(e);
                },
            }
            proof {
                let more = encode_step(before, p, i + 1 == n).1;
                lemma_chunks_bytes_concat(chunks, more);
                chunks = chunks + more;
            }
            i = i + 1;
        }
        let padding = [0u8; 4];
        proof {
            assert(padding@ =~= seq![0u8, 0, 0, 0]);
        }
        match self.writer.write_all(&padding) {
            Ok(()) => {},
            Err(e) => {
                proof {
                    assert(head + chunks_bytes(chunks) =~= start + (header + chunks_bytes(chunks)));
                    lemma_part_after_whole(
                        start,
                        header + chunks_bytes(chunks),
                        pad,
                        self.writer.written(),
                    );
                }
                return Err(EncoderError::IoError(e));
            },
        }
        Ok(())
    }

    /// Takes one pixel through the encoder's state and writes the chunks of
    /// that step.
    #[verifier::rlimit(40)]
    fn encode_pixel(&mut self, state: &mut PixelState, p: Pixel, last: bool) -> (r: Result<
        (),
        EncoderError,
    >)
        requires
            old(state).run < MAX_RUN,
        ensures
            r is Ok ==> {
                let (next, more) = encode_step(old(state).view(), p, last);
                &&& final(self).writer.written() == old(self).writer.written() + chunks_bytes(more)
                &&& final(state).view() == next
                &&& final(state).run < MAX_RUN
            },
            r is Err ==> extends_with_part(
                old(self).writer.written(),
                final(self).writer.written(),
                chunks_bytes(encode_step(old(state).view(), p, last).1),
            ),
            old(self).writer.faultless() ==> r is Ok && final(self).writer.faultless(),
    {
        let ghost start = old(self).writer.written();
        let ghost s0 = old(state).view();
        let ghost full = encode_step(s0, p, last).1;
        let ghost mut more: Seq<QoiChunk> = seq![];
        proof {
            assert(start + chunks_bytes(more) =~= start);
        }
        if p == state.prev {
            state.run = state.run + 1;
        }
        if state.run > 0 && (state.run == MAX_RUN || p != state.prev || last) {
            let chunk = if state.run < 33 {
                QoiChunk::Run8((state.run - 1) as u8)
            } else {
                QoiChunk::Run16(state.run - 33)
            };
            match self.put_chunk(chunk) {
                Ok(()) => {},
                Err(e) => {
                    proof {
                        lemma_chunks_bytes_one(chunk);
                        assert(full =~= seq![chunk] + full.skip(1));
                        lemma_chunks_bytes_concat(seq![chunk], full.skip(1));
                        lemma_part_of_longer(
                            start,
                            chunk.spec_bytes(),
                            chunks_bytes(full.skip(1)),
                            self.writer.written(),
                        );
                    }
                    return Err(e);
                },
            }
            proof {
                assert(more.push(chunk).drop_last() =~= more);
                assert(self.writer.written() =~= start + chunks_bytes(more.push(chunk)));
                more = more.push(chunk);
            }
            state.run = 0;
        }
        let slot = p.hash();
        if p != state.prev {
            let chunk = if state.index[slot] == p {
                proof {
                    assert(state.index@.update(slot as int, p) =~= state.index@);
                }
                QoiChunk::Index(slot as u8)
            } else {
                state.index[slot] = p;
                pick_delta_chunk(state.prev, p)
            };
            match self.put_chunk(chunk) {
                Ok(()) => {},
                Err(e) => {
                    proof {
                        lemma_part_after_whole(
                            start,
                            chunks_bytes(more),
                            chunk.spec_bytes(),
                            self.writer.written(),
                        );
                        assert(more.push(chunk).drop_last() =~= more);
                        assert(more.push(chunk) =~= full);
                    }
                    return Err(e);
                },
            }
            proof {
                assert(more.push(chunk).drop_last() =~= more);
                assert(self.writer.written() =~= start + chunks_bytes(more.push(chunk)));
                more = more.push(chunk);
            }
            state.prev = p;
        } else {
            state.index[slot] = p;
        }
        proof {
            assert(more =~= full);
        }
        Ok(())
    }

    fn put_chunk(&mut self, chunk: QoiChunk) -> (r: Result<(), EncoderError>)
        requires
            chunk.wf(),
        ensures
            r is Ok ==> final(self).writer.written() == old(self).writer.written()
                + chunk.spec_bytes(),
            r is Err ==> extends_with_part(
                old(self).writer.written(),
                final(self).writer.written(),
                chunk.spec_bytes(),
            ),
            old(self).writer.faultless() ==> r is Ok && final(self).writer.faultless(),
    {
        match write_qoi_chunk(&mut self.writer, chunk) {
            Ok(_) => Ok(()),
            Err(e) => Err(e),
        }
    }

    #[verifier::rlimit(40)]
    fn put_header(
        &mut self,
        width: u32,
        height: u32,
        channels: u8,
        color_space: ColorSpace,
    ) -> (r: Result<(), EncoderError>)
        ensures
            r is Ok ==> final(self).writer.written() == old(self).writer.written() + header_bytes(
                width,
                height,
                channels,
                color_space,
            ),
            r is Err ==> extends_with_part(
                old(self).writer.written(),
                final(self).writer.written(),
                header_bytes(width, height, channels, color_space),
            ),
            old(self).writer.faultless() ==> r is Ok && final(self).writer.faultless(),
    {
        let mut bytes: Vec<u8> = Vec::new();
        let signature = MAGIC;
        let w = u32_to_be(width);
        let h = u32_to_be(height);
        let mut i: usize = 0;
        while i < 4
            invariant
                0 <= i <= 4,
                bytes@ == magic().take(i as int),
                signature@ == magic(),
            decreases 4 - i,
        {
            bytes.push(signature[i]);
            i += 1;
            proof {
                assert(bytes@ =~= magic().take(i as int));
            }
        }
        bytes.push(w[0]);
        bytes.push(w[1]);
        bytes.push(w[2]);
        bytes.push(w[3]);
        bytes.push(h[0]);
        bytes.push(h[1]);
        bytes.push(h[2]);
        bytes.push(h[3]);
        bytes.push(channels);
        bytes.push(u8::from(color_space));
        proof {
            assert(magic().take(4) =~= magic());
            assert(bytes@ =~= header_bytes(width, height, channels, color_space));
        }
        match self.writer.write_all(bytes.as_slice()) {
            Ok(()) => Ok(()),
            Err(e) => Err(EncoderError::IoError(e)),
        }
    }
}

} // verus!
