//! Proofs that the decoder undoes the encoder and keeps the same cache.

use vstd::prelude::*;

use crate::chunk::{lemma_parse_written, QoiChunk};
use crate::color_space::{byte_of, ColorSpace};
use crate::consts::MAX_RUN;
use crate::decoder::{
    apply_chunk, check_padding, chunk_pixel, chunk_run, decode_image, decode_pixels, decode_step,
    magic, parse_header, start_state, wrap_delta, DecodeState, Header,
};
use crate::encoder::{
    cache_after, chunks_bytes, delta_chunk, encode_chunks, encode_image, encode_prefix,
    encode_step, header_bytes, lemma_chunks_bytes_concat, lemma_chunks_bytes_one,
    lemma_encoder_cache, lemma_prefix_grows, new_pixel_chunk, pixels_of, run_chunk, EncodeState,
};
use crate::error::DecoderError;
use crate::io::{be_bytes, lemma_be_round_trip};
use crate::pixel::{pixel_bytes, Pixel};

verus! {

/// How the decoder's cache, at the last pixel it has produced, stands to the
/// encoder's: the same when no run is held; while one is, the encoder's has
/// the run's pixel stored again, as it stores every pixel it takes.
pub open spec fn caches_linked(e: EncodeState, dc: Seq<Pixel>) -> bool {
    &&& dc.len() == 64
    &&& e.cache == if e.run > 0 {
        dc.update(e.prev.slot(), e.prev)
    } else {
        dc
    }
}

/// Two decodes in a row are one decode of both counts.
#[verifier::rlimit(40)]
proof fn lemma_decode_join(
    s: DecodeState,
    input: Seq<u8>,
    a: nat,
    b: nat,
    s1: DecodeState,
    o1: Seq<Pixel>,
    r1: Seq<u8>,
    s2: DecodeState,
    o2: Seq<Pixel>,
    r2: Seq<u8>,
)
    requires
        decode_pixels(s, input, a) == Ok::<(DecodeState, Seq<Pixel>, Seq<u8>), DecoderError>(
            (s1, o1, r1),
        ),
        decode_pixels(s1, r1, b) == Ok::<(DecodeState, Seq<Pixel>, Seq<u8>), DecoderError>(
            (s2, o2, r2),
        ),
    ensures
        decode_pixels(s, input, a + b) == Ok::<(DecodeState, Seq<Pixel>, Seq<u8>), DecoderError>(
            (s2, o1 + o2, r2),
        ),
    decreases b,
{
    if b == 0 {
        assert(o1 + o2 =~= o1);
    } else {
        let (sm, om, rm) = decode_pixels(s1, r1, (b - 1) as nat)->Ok_0;
        lemma_decode_join(s, input, a, (b - 1) as nat, s1, o1, r1, sm, om, rm);
        assert((a + b - 1) as nat == a + (b - 1) as nat);
        assert(o1 + om.push(s2.pixel) =~= (o1 + om).push(s2.pixel));
    }
}

/// While a run is owed, each pixel repeats the current one and reads nothing.
#[verifier::rlimit(40)]
proof fn lemma_decode_run(s: DecodeState, input: Seq<u8>, k: nat)
    requires
        k <= s.run,
    ensures
        decode_pixels(s, input, k) == Ok::<(DecodeState, Seq<Pixel>, Seq<u8>), DecoderError>(
            (
                DecodeState { run: (s.run - k) as nat, ..s },
                Seq::new(k, |j: int| s.pixel),
                input,
            ),
        ),
    decreases k,
{
    if k == 0 {
        assert(Seq::new(0, |j: int| s.pixel) =~= seq![]);
    } else {
        lemma_decode_run(s, input, (k - 1) as nat);
        assert(Seq::new((k - 1) as nat, |j: int| s.pixel).push(s.pixel) =~= Seq::new(
            k,
            |j: int| s.pixel,
        ));
    }
}

/// A written chunk, read with no run owed, yields its pixel and then the
/// repeats it asks for, and consumes exactly its bytes.
#[verifier::rlimit(40)]
proof fn lemma_decode_chunk(s: DecodeState, chunk: QoiChunk, t: Seq<u8>)
    requires
        s.run == 0,
        chunk.wf(),
    ensures
        decode_pixels(s, chunk.spec_bytes() + t, 1 + chunk_run(chunk)) == Ok::<
            (DecodeState, Seq<Pixel>, Seq<u8>),
            DecoderError,
        >(
            (
                DecodeState { run: 0, ..apply_chunk(s, chunk) },
                Seq::new(1 + chunk_run(chunk), |j: int| chunk_pixel(s.pixel, s.cache, chunk)),
                t,
            ),
        ),
{
    let input = chunk.spec_bytes() + t;
    lemma_parse_written(chunk, t);
    assert(input.skip(chunk.spec_bytes().len() as int) =~= t);
    let s1 = apply_chunk(s, chunk);
    let p = s1.pixel;
    assert(decode_step(s, input) == Ok::<(DecodeState, Seq<u8>), DecoderError>((s1, t)));
    assert(decode_pixels(s, input, 0) == Ok::<
        (DecodeState, Seq<Pixel>, Seq<u8>),
        DecoderError,
    >((s, seq![], input)));
    assert(decode_pixels(s, input, 1) == Ok::<
        (DecodeState, Seq<Pixel>, Seq<u8>),
        DecoderError,
    >((s1, seq![p], t)));
    lemma_decode_run(s1, t, chunk_run(chunk));
    lemma_decode_join(
        s,
        input,
        1,
        chunk_run(chunk),
        s1,
        seq![p],
        t,
        DecodeState { run: 0, ..s1 },
        Seq::new(chunk_run(chunk), |j: int| s1.pixel),
        t,
    );
    assert(seq![p] + Seq::new(chunk_run(chunk), |j: int| s1.pixel) =~= Seq::new(
        1 + chunk_run(chunk),
        |j: int| p,
    ));
}

proof fn lemma_chunks_bytes_two(a: QoiChunk, b: QoiChunk)
    ensures
        chunks_bytes(seq![a, b]) == a.spec_bytes() + b.spec_bytes(),
{
    lemma_chunks_bytes_one(a);
    lemma_chunks_bytes_one(b);
    lemma_chunks_bytes_concat(seq![a], seq![b]);
    assert(seq![a] + seq![b] =~= seq![a, b]);
}

proof fn lemma_run_chunk(count: nat)
    requires
        1 <= count <= MAX_RUN,
    ensures
        run_chunk(count).wf(),
        1 + chunk_run(run_chunk(count)) == count,
{
}

/// A channel moved by a delta stored with its bias lands on the target value.
proof fn lemma_wrap_exact(prev: u8, p: u8, bias: int)
    requires
        0 <= p - prev + bias < 256,
    ensures
        wrap_delta(prev, (p - prev + bias) as u8, bias) == p,
{
    let f = (p - prev + bias) as u8;
    assert(prev + f - bias == p);
    assert((p as int) % 256 == p as int) by (nonlinear_arith)
        requires
            0 <= p < 256,
    ;
}

/// The delta chunk between two pixels is well formed and takes the first to
/// the second.
#[verifier::rlimit(40)]
proof fn lemma_delta_chunk(prev: Pixel, p: Pixel, cache: Seq<Pixel>)
    ensures
        delta_chunk(prev, p).wf(),
        chunk_run(delta_chunk(prev, p)) == 0,
        chunk_pixel(prev, cache, delta_chunk(prev, p)) == p,
{
    let c = delta_chunk(prev, p);
    match c {
        QoiChunk::Diff8(r, g, b) => {
            lemma_wrap_exact(prev.r, p.r, 2);
            lemma_wrap_exact(prev.g, p.g, 2);
            lemma_wrap_exact(prev.b, p.b, 2);
        },
        QoiChunk::Diff16(r, g, b) => {
            lemma_wrap_exact(prev.r, p.r, 16);
            lemma_wrap_exact(prev.g, p.g, 8);
            lemma_wrap_exact(prev.b, p.b, 8);
        },
        QoiChunk::Diff24(r, g, b, a) => {
            lemma_wrap_exact(prev.r, p.r, 16);
            lemma_wrap_exact(prev.g, p.g, 16);
            lemma_wrap_exact(prev.b, p.b, 16);
            lemma_wrap_exact(prev.a, p.a, 16);
        },
        _ => {},
    }
}

/// The decoder reads the chunk of a run of the encoder's previous pixel.
#[verifier::rlimit(40)]
proof fn lemma_run_flush(e: EncodeState, d: DecodeState, count: nat, t: Seq<u8>) -> (d1:
    DecodeState)
    requires
        d.run == 0,
        d.pixel == e.prev,
        1 <= count <= MAX_RUN,
    ensures
        decode_pixels(d, run_chunk(count).spec_bytes() + t, count) == Ok::<
            (DecodeState, Seq<Pixel>, Seq<u8>),
            DecoderError,
        >((d1, Seq::new(count, |j: int| e.prev), t)),
        d1.run == 0,
        d1.pixel == e.prev,
        d1.cache == d.cache.update(e.prev.slot(), e.prev),
{
    let rc = run_chunk(count);
    lemma_run_chunk(count);
    lemma_decode_chunk(d, rc, t);
    let d1 = DecodeState { run: 0, ..apply_chunk(d, rc) };
    assert(Seq::new(1 + chunk_run(rc), |j: int| chunk_pixel(d.pixel, d.cache, rc)) =~= Seq::new(
        count,
        |j: int| e.prev,
    ));
    d1
}

/// The decoder reads the chunk of a pixel that differs from the previous one.
#[verifier::rlimit(40)]
proof fn lemma_new_pixel(e: EncodeState, d: DecodeState, p: Pixel, t: Seq<u8>) -> (d2:
    DecodeState)
    requires
        d.run == 0,
        d.pixel == e.prev,
        d.cache == e.cache,
        e.cache.len() == 64,
        p != e.prev,
    ensures
        new_pixel_chunk(e, p).wf(),
        decode_pixels(d, new_pixel_chunk(e, p).spec_bytes() + t, 1) == Ok::<
            (DecodeState, Seq<Pixel>, Seq<u8>),
            DecoderError,
        >((d2, seq![p], t)),
        d2.run == 0,
        d2.pixel == p,
        d2.cache == e.cache.update(p.slot(), p),
{
    let nc = new_pixel_chunk(e, p);
    lemma_delta_chunk(e.prev, p, d.cache);
    if e.cache[p.slot()] == p {
        assert(chunk_pixel(d.pixel, d.cache, nc) == p);
    }
    lemma_decode_chunk(d, nc, t);
    assert(Seq::new(1 + chunk_run(nc), |j: int| chunk_pixel(d.pixel, d.cache, nc)) =~= seq![p]);
    DecodeState { run: 0, ..apply_chunk(d, nc) }
}

/// The pixels that the chunks of one encoder step stand for: the run of the
/// previous pixel that it writes out, then the new pixel if it differs.
pub open spec fn step_pixels(e: EncodeState, e2: EncodeState, p: Pixel) -> Seq<Pixel> {
    Seq::new(
        (e.run + 1 - e2.run) as nat,
        |j: int|
            if j < e.run {
                e.prev
            } else {
                p
            },
    )
}

/// What one encoder step writes, the decoder reads back.
#[verifier::rlimit(40)]
proof fn lemma_step_decodes(e: EncodeState, d: DecodeState, p: Pixel, last: bool, t: Seq<u8>) -> (d2:
    DecodeState)
    requires
        d.run == 0,
        d.pixel == e.prev,
        caches_linked(e, d.cache),
        e.run < MAX_RUN,
    ensures
        ({
            let (e2, more) = encode_step(e, p, last);
            &&& e2.run <= e.run + 1
            &&& e2.run < MAX_RUN
            &&& e2.prev == p
            &&& e2.run > 0 ==> p == e.prev
            &&& last ==> e2.run == 0
            &&& d2.run == 0
            &&& d2.pixel == e2.prev
            &&& caches_linked(e2, d2.cache)
            &&& decode_pixels(d, chunks_bytes(more) + t, (e.run + 1 - e2.run) as nat) == Ok::<
                (DecodeState, Seq<Pixel>, Seq<u8>),
                DecoderError,
            >((d2, step_pixels(e, e2, p), t))
        }),
{
    let (e2, more) = encode_step(e, p, last);
    let run = if p == e.prev {
        e.run + 1
    } else {
        e.run
    };
    let flush = run > 0 && (run == MAX_RUN || p != e.prev || last);
    let slot = e.prev.slot();
    assert(d.cache.update(slot, e.prev).update(slot, e.prev) =~= d.cache.update(slot, e.prev));
    if p == e.prev {
        if flush {
            let rc = run_chunk(run);
            assert(more == seq![rc]);
            lemma_chunks_bytes_one(rc);
            let d1 = lemma_run_flush(e, d, run, t);
            assert(Seq::new(run, |j: int| e.prev) =~= step_pixels(e, e2, p));
            d1
        } else {
            assert(more.len() == 0);
            assert(chunks_bytes(more) + t =~= t);
            assert(step_pixels(e, e2, p) =~= seq![]);
            d
        }
    } else {
        let nc = new_pixel_chunk(e, p);
        if flush {
            let rc = run_chunk(run);
            assert(more == seq![rc, nc]);
            lemma_chunks_bytes_two(rc, nc);
            assert(chunks_bytes(more) + t =~= rc.spec_bytes() + (nc.spec_bytes() + t));
            let d1 = lemma_run_flush(e, d, run, nc.spec_bytes() + t);
            let e_mid = EncodeState { run: 0, ..e };
            let d2 = lemma_new_pixel(e_mid, d1, p, t);
            lemma_decode_join(
                d,
                chunks_bytes(more) + t,
                run,
                1,
                d1,
                Seq::new(run, |j: int| e.prev),
                nc.spec_bytes() + t,
                d2,
                seq![p],
                t,
            );
            assert(Seq::new(run, |j: int| e.prev) + seq![p] =~= step_pixels(e, e2, p));
            d2
        } else {
            assert(more == seq![nc]);
            lemma_chunks_bytes_one(nc);
            let d2 = lemma_new_pixel(e, d, p, t);
            assert(seq![p] =~= step_pixels(e, e2, p));
            d2
        }
    }
}

/// After the encoder has taken `i` pixels, the chunks it has written decode,
/// whatever follows them, to all those pixels but the run it still holds; and
/// the decoder then stands where the encoder stands.
#[verifier::rlimit(40)]
proof fn lemma_prefix_decodes(pixels: Seq<Pixel>, i: nat, t: Seq<u8>) -> (d: DecodeState)
    requires
        i <= pixels.len(),
    ensures
        ({
            let (e, chunks) = encode_prefix(pixels, i);
            let m = (i - e.run) as nat;
            &&& e.run <= i
            &&& e.run < MAX_RUN
            &&& d.run == 0
            &&& d.pixel == e.prev
            &&& caches_linked(e, d.cache)
            &&& (forall|j: int| m <= j < i ==> pixels[j] == e.prev)
            &&& (i == pixels.len() ==> e.run == 0)
            &&& decode_pixels(start_state(), chunks_bytes(chunks) + t, m) == Ok::<
                (DecodeState, Seq<Pixel>, Seq<u8>),
                DecoderError,
            >((d, pixels.take(m as int), t))
        }),
    decreases i,
{
    if i == 0 {
        assert(chunks_bytes(Seq::<QoiChunk>::empty()) + t =~= t);
        assert(pixels.take(0) =~= seq![]);
        start_state()
    } else {
        let (e, chunks) = encode_prefix(pixels, (i - 1) as nat);
        let p = pixels[i - 1];
        let last = i == pixels.len();
        let (e2, more) = encode_step(e, p, last);
        let t1 = chunks_bytes(more) + t;
        let d = lemma_prefix_decodes(pixels, (i - 1) as nat, t1);
        let m = (i - 1 - e.run) as nat;
        let d2 = lemma_step_decodes(e, d, p, last, t);
        let k = (e.run + 1 - e2.run) as nat;
        lemma_chunks_bytes_concat(chunks, more);
        assert(chunks_bytes(chunks + more) + t =~= chunks_bytes(chunks) + t1);
        lemma_decode_join(
            start_state(),
            chunks_bytes(chunks) + t1,
            m,
            k,
            d,
            pixels.take(m as int),
            t1,
            d2,
            step_pixels(e, e2, p),
            t,
        );
        let m2 = (i - e2.run) as nat;
        assert(m + k == m2);
        assert(pixels.take(m as int) + step_pixels(e, e2, p) =~= pixels.take(m2 as int));
        d2
    }
}

/// The header written for an image reads back as its fields.
#[verifier::rlimit(40)]
proof fn lemma_header_parse(
    width: u32,
    height: u32,
    channels: u8,
    color_space: ColorSpace,
    rest: Seq<u8>,
)
    requires
        channels == 3 || channels == 4,
    ensures
        parse_header(header_bytes(width, height, channels, color_space) + rest) == Ok::<
            (Header, Seq<u8>),
            DecoderError,
        >(
            (
                Header { width, height, channels, color_space: byte_of(color_space) },
                rest,
            ),
        ),
{
    let input = header_bytes(width, height, channels, color_space) + rest;
    lemma_be_round_trip(width);
    lemma_be_round_trip(height);
    assert(input.take(4) =~= magic());
    assert(input.subrange(4, 8) =~= be_bytes(width));
    assert(input.subrange(8, 12) =~= be_bytes(height));
    assert(input[12] == channels);
    assert(input[13] == byte_of(color_space));
    assert(input.skip(14) =~= rest);
}

/// The raw bytes of the first `k` pixels of a buffer are its first bytes.
#[verifier::rlimit(40)]
proof fn lemma_pixel_bytes_prefix(buf: Seq<u8>, channels: nat, k: nat)
    requires
        channels == 3 || channels == 4,
        k <= buf.len() / channels,
    ensures
        pixel_bytes(pixels_of(buf, channels).take(k as int), channels) == buf.take(
            (k * channels) as int,
        ),
    decreases k,
{
    let pixels = pixels_of(buf, channels);
    if k == 0 {
        assert(pixels.take(0) =~= seq![]);
        assert(buf.take(0) =~= seq![]);
    } else {
        lemma_pixel_bytes_prefix(buf, channels, (k - 1) as nat);
        assert(pixels.take(k as int).drop_last() =~= pixels.take(k - 1));
        let q = pixels[k - 1];
        assert(k * channels <= buf.len()) by (nonlinear_arith)
            requires
                k <= buf.len() / channels,
                channels > 0,
        ;
        if channels == 3 {
            assert(buf.take((k * 3) as int) =~= buf.take((k - 1) * 3) + q.bytes().take(3));
        } else {
            assert(buf.take((k * 4) as int) =~= buf.take((k - 1) * 4) + q.bytes().take(4));
        }
    }
}

/// Encoding an image and decoding the stream gives back the header fields and
/// exactly the pixel bytes, for every size (the empty image included) and for
/// both channel counts.
#[verifier::rlimit(40)]
pub proof fn lemma_round_trip(
    buf: Seq<u8>,
    width: u32,
    height: u32,
    channels: u8,
    color_space: ColorSpace,
)
    requires
        channels == 3 || channels == 4,
        buf.len() == width as nat * height as nat * channels as nat,
    ensures
        decode_image(encode_image(buf, width, height, channels, color_space)) == Ok::<
            (Header, Seq<u8>),
            DecoderError,
        >((Header { width, height, channels, color_space: byte_of(color_space) }, buf)),
{
    let ch = channels as nat;
    let pixels = pixels_of(buf, ch);
    let n = pixels.len();
    assert(n == width as nat * height as nat) by (nonlinear_arith)
        requires
            n == buf.len() / ch,
            buf.len() == width as nat * height as nat * ch,
            ch > 0,
    ;
    let chunks = encode_chunks(pixels);
    let pad = seq![0u8, 0, 0, 0];
    let body = chunks_bytes(chunks) + pad;
    let header = Header { width, height, channels, color_space: byte_of(color_space) };
    assert(encode_image(buf, width, height, channels, color_space) =~= header_bytes(
        width,
        height,
        channels,
        color_space,
    ) + body);
    lemma_header_parse(width, height, channels, color_space, body);
    let d = lemma_prefix_decodes(pixels, n, pad);
    assert(pixels.take(n as int) =~= pixels);
    assert(pad.take(4) =~= seq![0u8, 0, 0, 0]);
    assert(check_padding(pad) is Ok);
    lemma_pixel_bytes_prefix(buf, ch, n);
    assert(buf.take((n * ch) as int) =~= buf);
}


/// While the encoder holds a run, the next chunk it writes is that run's
/// chunk, for at least as many pixels as it holds.
#[verifier::rlimit(40)]
proof fn lemma_run_chunk_ahead(pixels: Seq<Pixel>, i: nat) -> (count: nat)
    requires
        i <= pixels.len(),
        encode_prefix(pixels, i).0.run > 0,
    ensures
        encode_prefix(pixels, i).0.run <= count <= MAX_RUN,
        encode_chunks(pixels).len() > encode_prefix(pixels, i).1.len(),
        encode_chunks(pixels)[encode_prefix(pixels, i).1.len() as int] == run_chunk(count),
    decreases pixels.len() - i,
{
    let n = pixels.len();
    let (e, chunks) = encode_prefix(pixels, i);
    lemma_prefix_decodes(pixels, i, seq![]);
    let p = pixels[i as int];
    let last = i + 1 == n;
    let (e2, more) = encode_step(e, p, last);
    lemma_prefix_grows(pixels, i + 1, n);
    let full = encode_chunks(pixels);
    let next = encode_prefix(pixels, i + 1).1;
    assert(next == chunks + more);
    let run = if p == e.prev {
        e.run + 1
    } else {
        e.run
    };
    let flush = run > 0 && (run == MAX_RUN || p != e.prev || last);
    if flush {
        assert(more[0] == run_chunk(run));
        assert(full.take(next.len() as int)[chunks.len() as int] == next[chunks.len() as int]);
        run
    } else {
        assert(more =~= Seq::<QoiChunk>::empty());
        assert(next =~= chunks);
        lemma_run_chunk_ahead(pixels, i + 1)
    }
}

/// The first `r` pixels read from a run chunk for `count` pixels.
#[verifier::rlimit(40)]
proof fn lemma_decode_run_part(d: DecodeState, count: nat, r: nat, t: Seq<u8>)
    requires
        d.run == 0,
        1 <= r <= count <= MAX_RUN,
    ensures
        decode_pixels(d, run_chunk(count).spec_bytes() + t, r) == Ok::<
            (DecodeState, Seq<Pixel>, Seq<u8>),
            DecoderError,
        >(
            (
                DecodeState {
                    pixel: d.pixel,
                    cache: d.cache.update(d.pixel.slot(), d.pixel),
                    run: (count - r) as nat,
                },
                Seq::new(r, |j: int| d.pixel),
                t,
            ),
        ),
{
    let rc = run_chunk(count);
    let input = rc.spec_bytes() + t;
    lemma_run_chunk(count);
    lemma_parse_written(rc, t);
    assert(input.skip(rc.spec_bytes().len() as int) =~= t);
    let s1 = apply_chunk(d, rc);
    assert(decode_pixels(d, input, 0) == Ok::<
        (DecodeState, Seq<Pixel>, Seq<u8>),
        DecoderError,
    >((d, seq![], input)));
    assert(decode_pixels(d, input, 1) == Ok::<
        (DecodeState, Seq<Pixel>, Seq<u8>),
        DecoderError,
    >((s1, seq![d.pixel], t)));
    lemma_decode_run(s1, t, (r - 1) as nat);
    lemma_decode_join(
        d,
        input,
        1,
        (r - 1) as nat,
        s1,
        seq![d.pixel],
        t,
        DecodeState { run: (s1.run - (r - 1)) as nat, ..s1 },
        Seq::new((r - 1) as nat, |j: int| s1.pixel),
        t,
    );
    assert(seq![d.pixel] + Seq::new((r - 1) as nat, |j: int| s1.pixel) =~= Seq::new(
        r,
        |j: int| d.pixel,
    ));
}

/// After any number of pixels of an encoded image, the decoder's cache is
/// exactly the encoder's cache after the same pixels: the empty cache with
/// each of those pixels stored in turn at its slot.
#[verifier::rlimit(40)]
pub proof fn lemma_cache_fidelity(pixels: Seq<Pixel>, k: nat)
    requires
        k <= pixels.len(),
    ensures
        decode_pixels(start_state(), chunks_bytes(encode_chunks(pixels)), k) is Ok,
        decode_pixels(start_state(), chunks_bytes(encode_chunks(pixels)), k)->Ok_0.0.cache
            == encode_prefix(pixels, k).0.cache,
        encode_prefix(pixels, k).0.cache == cache_after(pixels.take(k as int)),
{
    let n = pixels.len();
    let full = encode_chunks(pixels);
    let (e, chunks) = encode_prefix(pixels, k);
    lemma_encoder_cache(pixels, k);
    lemma_prefix_grows(pixels, k, n);
    let tail = full.skip(chunks.len() as int);
    assert(full =~= chunks + tail);
    lemma_chunks_bytes_concat(chunks, tail);
    let t = chunks_bytes(tail);
    let d = lemma_prefix_decodes(pixels, k, t);
    let m = (k - e.run) as nat;
    if e.run > 0 {
        let count = lemma_run_chunk_ahead(pixels, k);
        let rest = tail.skip(1);
        assert(tail =~= seq![tail[0]] + rest);
        lemma_chunks_bytes_concat(seq![tail[0]], rest);
        lemma_chunks_bytes_one(tail[0]);
        let t2 = chunks_bytes(rest);
        assert(t == run_chunk(count).spec_bytes() + t2);
        lemma_decode_run_part(d, count, e.run, t2);
        let d2 = DecodeState {
            pixel: d.pixel,
            cache: d.cache.update(d.pixel.slot(), d.pixel),
            run: (count - e.run) as nat,
        };
        lemma_decode_join(
            start_state(),
            chunks_bytes(full),
            m,
            e.run,
            d,
            pixels.take(m as int),
            t,
            d2,
            Seq::new(e.run, |j: int| d.pixel),
            t2,
        );
    }
}

} // verus!
