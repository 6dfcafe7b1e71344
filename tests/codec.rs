use qoi::io::{Error, Read, Write};
use qoi::{
    read_qoi_chunk, write_qoi_chunk, ColorSpace, Cursor, DecoderError, EncoderError, QoiChunk,
    QoiConsts, QoiDecoder, QoiEncoder,
};

fn encode(buf: &[u8], width: u32, height: u32, channels: u8, color_space: ColorSpace) -> Vec<u8> {
    let mut encoder = QoiEncoder::new(Vec::new());
    encoder
        .encode(buf, width, height, channels, color_space)
        .unwrap();
    encoder.into_inner()
}

fn decode_all(data: &[u8]) -> Result<(u32, u32, u8, Vec<u8>), DecoderError> {
    let mut decoder = QoiDecoder::new(data)?;
    let (width, height) = decoder.dimensions();
    let channels = decoder.channels();
    let mut out = vec![0u8; width as usize * height as usize * channels as usize];
    let n = decoder.decode(&mut out)?;
    assert_eq!(n, out.len());
    Ok((width, height, channels, out))
}

fn header(width: u32, height: u32, channels: u8, color_space: u8) -> Vec<u8> {
    let mut v = b"qoif".to_vec();
    v.extend_from_slice(&width.to_be_bytes());
    v.extend_from_slice(&height.to_be_bytes());
    v.push(channels);
    v.push(color_space);
    v
}

fn repeated(pixel: [u8; 4], count: usize) -> Vec<u8> {
    let mut v = Vec::new();
    for _ in 0..count {
        v.extend_from_slice(&pixel);
    }
    v
}

/// The chunk bytes between the header and the trailer.
fn body(encoded: &[u8]) -> &[u8] {
    assert!(encoded.len() >= 18);
    assert_eq!(&encoded[encoded.len() - 4..], &[0, 0, 0, 0]);
    &encoded[14..encoded.len() - 4]
}

fn sample_image(width: usize, height: usize, channels: usize) -> Vec<u8> {
    let mut v = Vec::new();
    let mut state: u32 = 12345;
    for i in 0..width * height {
        state = state.wrapping_mul(1103515245).wrapping_add(12345);
        let choice = (state >> 16) % 5;
        let px: [u8; 4] = match choice {
            0 => [10, 20, 30, 255],
            1 => [(i % 256) as u8, 20, 30, 255],
            2 => [(state >> 8) as u8, (state >> 3) as u8, (state >> 20) as u8, (state >> 12) as u8],
            3 => [11, 19, 31, 255],
            _ => [10, 20, 30, 200],
        };
        v.extend_from_slice(&px[..channels]);
    }
    v
}

#[test]
fn concrete_two_pixel_rgba() {
    let pixels = [10, 10, 10, 255, 10, 10, 10, 255];
    let encoded = encode(&pixels, 2, 1, 4, ColorSpace::Srgb);
    let mut expected = header(2, 1, 4, 0);
    // Delta (10, 10, 10, 0) from opaque black fits Diff24 (each field 26, alpha 16).
    expected.extend_from_slice(&[0xED, 0x6B, 0x50]);
    // One repeat: Run8 with value 0.
    expected.push(0x40);
    expected.extend_from_slice(&[0, 0, 0, 0]);
    assert_eq!(encoded, expected);
    let (w, h, c, out) = decode_all(&encoded).unwrap();
    assert_eq!((w, h, c), (2, 1, 4));
    assert_eq!(out, pixels.to_vec());
}

#[test]
fn round_trip_rgba() {
    let pixels = sample_image(37, 23, 4);
    let encoded = encode(&pixels, 37, 23, 4, ColorSpace::Linear);
    let (w, h, c, out) = decode_all(&encoded).unwrap();
    assert_eq!((w, h, c), (37, 23, 4));
    assert_eq!(out, pixels);
}

#[test]
fn round_trip_rgb() {
    let pixels = sample_image(19, 31, 3);
    let encoded = encode(&pixels, 19, 31, 3, ColorSpace::Srgb);
    let (w, h, c, out) = decode_all(&encoded).unwrap();
    assert_eq!((w, h, c), (19, 31, 3));
    assert_eq!(out, pixels);
}

#[test]
fn round_trip_empty_image() {
    let encoded = encode(&[], 0, 0, 4, ColorSpace::Srgb);
    let mut expected = header(0, 0, 4, 0);
    expected.extend_from_slice(&[0, 0, 0, 0]);
    assert_eq!(encoded, expected);
    let (w, h, c, out) = decode_all(&encoded).unwrap();
    assert_eq!((w, h, c), (0, 0, 4));
    assert!(out.is_empty());

    let encoded = encode(&[], 7, 0, 3, ColorSpace::Srgb);
    let (w, h, _, out) = decode_all(&encoded).unwrap();
    assert_eq!((w, h), (7, 0));
    assert!(out.is_empty());
}

#[test]
fn round_trip_starting_with_opaque_black() {
    let mut pixels = repeated([0, 0, 0, 255], 3);
    pixels.extend_from_slice(&[5, 6, 7, 255, 0, 0, 0, 0, 0, 0, 0, 255, 5, 6, 7, 255]);
    let encoded = encode(&pixels, 7, 1, 4, ColorSpace::Srgb);
    let (_, _, _, out) = decode_all(&encoded).unwrap();
    assert_eq!(out, pixels);
}

#[test]
fn run_of_32_start_pixels_is_one_run8() {
    let pixels = repeated([0, 0, 0, 255], 32);
    let encoded = encode(&pixels, 32, 1, 4, ColorSpace::Srgb);
    assert_eq!(body(&encoded), &[0x40 | 31]);
    assert_eq!(decode_all(&encoded).unwrap().3, pixels);
}

#[test]
fn run_of_32_pixels_after_first_chunk() {
    let pixels = repeated([1, 1, 1, 255], 32);
    let encoded = encode(&pixels, 32, 1, 4, ColorSpace::Srgb);
    // The first pixel gets its own Diff8, the 31 repeats one Run8.
    assert_eq!(body(&encoded), &[0x80 | (3 << 4) | (3 << 2) | 3, 0x40 | 30]);
    assert_eq!(decode_all(&encoded).unwrap().3, pixels);
}

#[test]
fn run_of_33_uses_run16() {
    let pixels = repeated([0, 0, 0, 255], 33);
    let encoded = encode(&pixels, 33, 1, 4, ColorSpace::Srgb);
    assert_eq!(body(&encoded), &[0x60, 0x00]);
    assert_eq!(decode_all(&encoded).unwrap().3, pixels);
}

#[test]
fn run_of_8224_is_one_run16() {
    let pixels = repeated([0, 0, 0, 255], 8224);
    let encoded = encode(&pixels, 8224, 1, 4, ColorSpace::Srgb);
    assert_eq!(body(&encoded), &[0x7F, 0xFF]);
    assert_eq!(decode_all(&encoded).unwrap().3, pixels);
}

#[test]
fn run_of_8225_splits() {
    let pixels = repeated([0, 0, 0, 255], 8225);
    let encoded = encode(&pixels, 8225, 1, 4, ColorSpace::Srgb);
    assert_eq!(body(&encoded), &[0x7F, 0xFF, 0x40]);
    assert_eq!(decode_all(&encoded).unwrap().3, pixels);
}

#[test]
fn diff_tiers() {
    // First pixel: a Color chunk with red, green and blue literals.
    let first = [100u8, 100, 100, 255];
    let cases: [([u8; 4], Vec<u8>); 4] = [
        ([101, 99, 98, 255], vec![0x80 | (3 << 4) | (1 << 2)]),
        ([102, 99, 98, 255], vec![0xC0 | 18, (7 << 4) | 6]),
        ([100, 100, 100, 240], vec![0xE0 | 8, 0x40 | (16 << 2) | 2, (0 << 5) | 1]),
        ([117, 100, 100, 255], vec![0xF8, 117]),
    ];
    for (second, chunk) in cases.iter() {
        let mut pixels = first.to_vec();
        pixels.extend_from_slice(second);
        let encoded = encode(&pixels, 2, 1, 4, ColorSpace::Srgb);
        let mut expected = vec![0xFE, 100, 100, 100];
        expected.extend_from_slice(chunk);
        assert_eq!(body(&encoded), expected.as_slice());
        assert_eq!(decode_all(&encoded).unwrap().3, pixels);
    }
}

#[test]
fn diff24_fields() {
    // Deltas (-16, 15, -1, 3): fields 0, 31, 15, 19.
    let pixels = [50, 60, 70, 100, 34, 75, 69, 103];
    let encoded = encode(&pixels, 2, 1, 4, ColorSpace::Srgb);
    let b = body(&encoded);
    assert_eq!(&b[5..], &[0xE0, (31 << 2) | (15 >> 3), ((15 & 7) << 5) | 19]);
    assert_eq!(decode_all(&encoded).unwrap().3, pixels.to_vec());
}

#[test]
fn repeated_pixel_uses_index() {
    let a = [10u8, 20, 30, 255];
    let b = [200u8, 100, 50, 255];
    let mut pixels = a.to_vec();
    pixels.extend_from_slice(&b);
    pixels.extend_from_slice(&a);
    let encoded = encode(&pixels, 3, 1, 4, ColorSpace::Srgb);
    let slot = QoiConsts::pixel_hash(&a) as u8;
    assert_eq!(*body(&encoded).last().unwrap(), slot);
    assert_eq!(decode_all(&encoded).unwrap().3, pixels);
}

#[test]
fn pixel_hash_values() {
    assert_eq!(QoiConsts::pixel_hash(&[10, 10, 10, 255]), 53);
    assert_eq!(QoiConsts::pixel_hash(&[0, 0, 0, 255]), 63);
    assert_eq!(QoiConsts::pixel_hash(&[0, 0, 0, 0]), 0);
    assert_eq!(QoiConsts::pixel_hash(&[1, 2, 4, 8]), 15);
    assert_eq!(QoiConsts::pixel_hash(&[]), 0);
}

#[test]
fn channel_count_five_is_refused() {
    let mut data = header(1, 1, 5, 0);
    data.extend_from_slice(&[0, 0, 0, 0]);
    assert!(matches!(QoiDecoder::new(data.as_slice()), Err(DecoderError::InvalidChannelCount(5))));
}

#[test]
fn other_signature_is_refused() {
    let mut data = header(1, 1, 4, 0);
    data[3] = b'g';
    assert!(matches!(
        QoiDecoder::new(data.as_slice()),
        Err(DecoderError::InvalidSignature([b'q', b'o', b'i', b'g']))
    ));
    let data = [0u8, 1, 2, 3, 4, 5, 6, 7, 8, 9, 10, 11, 12, 13];
    assert!(matches!(
        QoiDecoder::new(&data[..]),
        Err(DecoderError::InvalidSignature([0, 1, 2, 3]))
    ));
}

#[test]
fn nonzero_padding_is_refused() {
    let mut data = encode(&[10, 10, 10, 255, 10, 10, 10, 255], 2, 1, 4, ColorSpace::Srgb);
    let last = data.len() - 1;
    data[last] = 7;
    assert!(matches!(decode_all(&data), Err(DecoderError::InvalidPadding([0, 0, 0, 7]))));
}

#[test]
fn truncated_streams_fail_with_eof() {
    let data = encode(&sample_image(5, 4, 4), 5, 4, 4, ColorSpace::Srgb);
    for cut in [0, 3, 10, 13, 15, data.len() - 3] {
        let result = decode_all(&data[..cut]);
        assert!(matches!(result, Err(DecoderError::IoError(Error::UnexpectedEof))), "cut {}", cut);
    }
}

#[test]
fn color_space_bytes_round_trip() {
    for b in 0..=255u8 {
        let cs = ColorSpace::from(b);
        assert_eq!(u8::from(cs), b);
        assert_eq!(ColorSpace::from(u8::from(cs)), cs);
    }
    assert_eq!(ColorSpace::from(0x00), ColorSpace::Srgb);
    assert_eq!(ColorSpace::from(0x01), ColorSpace::SrgbLinearAlpha);
    assert_eq!(ColorSpace::from(0x0F), ColorSpace::Linear);
    assert_eq!(ColorSpace::from(0x10), ColorSpace::Unknown(0x10));
    assert_eq!(ColorSpace::from(0xFF), ColorSpace::Unknown(0xFF));
    assert_eq!(ColorSpace::from(0x05), ColorSpace::Custom(false, true, false, true));
    assert_eq!(ColorSpace::from(0x0E), ColorSpace::Custom(true, true, true, false));
    assert_eq!(u8::from(ColorSpace::Custom(true, false, false, false)), 0x08);
}

#[test]
fn header_carries_dimensions_and_color_space() {
    let pixels = repeated([1, 2, 3, 255], 6);
    let encoded = encode(&pixels, 3, 2, 4, ColorSpace::Custom(true, false, true, false));
    assert_eq!(&encoded[..14], header(3, 2, 4, 0x0A).as_slice());
    let decoder = QoiDecoder::new(encoded.as_slice()).unwrap();
    assert_eq!(decoder.dimensions(), (3, 2));
    assert_eq!(decoder.channels(), 4);
    assert_eq!(decoder.color_space(), ColorSpace::Custom(true, false, true, false));
}

#[test]
fn large_dimensions_are_read_big_endian() {
    let data = header(0x0102_0304, 0xA0B0_C0D0, 3, 0x42);
    assert_eq!(&data[4..12], &[1, 2, 3, 4, 0xA0, 0xB0, 0xC0, 0xD0]);
    let decoder = QoiDecoder::new(data.as_slice()).unwrap();
    assert_eq!(decoder.dimensions(), (0x0102_0304, 0xA0B0_C0D0));
    assert_eq!(decoder.color_space(), ColorSpace::Unknown(0x42));
}

#[test]
fn decode_in_small_batches() {
    let pixels = sample_image(9, 7, 3);
    let encoded = encode(&pixels, 9, 7, 3, ColorSpace::Srgb);
    let mut decoder = QoiDecoder::new(Cursor::new(encoded)).unwrap();
    let mut out = Vec::new();
    let mut buf = [0u8; 10];
    loop {
        let n = decoder.decode(&mut buf).unwrap();
        // Ten bytes hold three whole pixels of three channels.
        assert!(n == 9 || n < 9);
        if n == 0 {
            break;
        }
        out.extend_from_slice(&buf[..n]);
    }
    assert_eq!(out, pixels);
    assert_eq!(decoder.decode(&mut buf).unwrap(), 0);
}

#[test]
fn chunks_write_and_read_back() {
    let chunks = [
        (QoiChunk::Index(63), vec![0x3F]),
        (QoiChunk::Run8(0), vec![0x40]),
        (QoiChunk::Run8(31), vec![0x5F]),
        (QoiChunk::Run16(0x1234), vec![0x72, 0x34]),
        (QoiChunk::Diff8(3, 0, 2), vec![0xB2]),
        (QoiChunk::Diff16(31, 15, 0), vec![0xDF, 0xF0]),
        (QoiChunk::Diff24(1, 2, 3, 4), vec![0xE0, 0x80 | 0x08, 0x64]),
        (QoiChunk::Color(Some(9), None, Some(7), None), vec![0xFA, 9, 7]),
        (QoiChunk::Color(None, None, None, None), vec![0xF0]),
    ];
    for (chunk, bytes) in chunks.iter() {
        let mut sink: Vec<u8> = Vec::new();
        let n = write_qoi_chunk(&mut sink, *chunk).unwrap();
        assert_eq!(n, bytes.len());
        assert_eq!(&sink, bytes);
        let mut source: &[u8] = sink.as_slice();
        assert_eq!(read_qoi_chunk(&mut source).unwrap(), *chunk);
        assert!(source.is_empty());
    }
}

#[test]
fn short_chunk_fails_with_eof() {
    let mut source: &[u8] = &[0x72];
    assert_eq!(read_qoi_chunk(&mut source), Err(DecoderError::IoError(Error::UnexpectedEof)));
    let mut source: &[u8] = &[0xFF, 1, 2];
    assert_eq!(read_qoi_chunk(&mut source), Err(DecoderError::IoError(Error::UnexpectedEof)));
    let mut source: &[u8] = &[];
    assert_eq!(read_qoi_chunk(&mut source), Err(DecoderError::IoError(Error::UnexpectedEof)));
}

#[test]
fn cursor_reads_and_moves() {
    let mut cursor = Cursor::new(vec![1u8, 2, 3, 4, 5]);
    assert_eq!(cursor.position(), 0);
    let mut buf = [0u8; 2];
    cursor.read_exact(&mut buf).unwrap();
    assert_eq!(buf, [1, 2]);
    assert_eq!(cursor.position(), 2);
    assert_eq!(cursor.read_u8().unwrap(), 3);
    let mut big = [0u8; 3];
    assert_eq!(cursor.read_exact(&mut big), Err(Error::UnexpectedEof));
    cursor.set_position(1);
    assert_eq!(cursor.read_u32().unwrap(), 0x0203_0405);
    cursor.set_position(100);
    assert_eq!(cursor.read_u8(), Err(Error::UnexpectedEof));
    cursor.get_mut().push(6);
    assert_eq!(cursor.get_ref().len(), 6);
    assert_eq!(cursor.into_inner(), vec![1, 2, 3, 4, 5, 6]);
}

#[test]
fn vec_sink_writes() {
    let mut sink: Vec<u8> = vec![9];
    sink.write_all(&[1, 2]).unwrap();
    sink.write_u8(3).unwrap();
    sink.write_u32(0xDEAD_BEEF).unwrap();
    assert_eq!(sink, vec![9, 1, 2, 3, 0xDE, 0xAD, 0xBE, 0xEF]);
}

#[test]
fn encoder_error_wraps_io_error() {
    let e: EncoderError = Error::WriteFailed.into();
    assert_eq!(e, EncoderError::IoError(Error::WriteFailed));
    let d: DecoderError = Error::UnexpectedEof.into();
    assert_eq!(d, DecoderError::IoError(Error::UnexpectedEof));
}

#[test]
fn encode_into_fixed_buffer() {
    let pixels = [10, 10, 10, 255, 10, 10, 10, 255];
    let expected = encode(&pixels, 2, 1, 4, ColorSpace::Srgb);
    let mut storage = vec![0xAAu8; expected.len() + 3];
    let mut encoder = QoiEncoder::new(Cursor::new(&mut storage[..]));
    encoder.encode(&pixels, 2, 1, 4, ColorSpace::Srgb).unwrap();
    assert_eq!(encoder.get_ref().position(), expected.len() as u64);
    drop(encoder);
    assert_eq!(&storage[..expected.len()], expected.as_slice());
    assert_eq!(&storage[expected.len()..], &[0xAA, 0xAA, 0xAA]);
}

#[test]
fn fixed_buffer_too_small_fails() {
    let pixels = [10, 10, 10, 255, 10, 10, 10, 255];
    let full = encode(&pixels, 2, 1, 4, ColorSpace::Srgb);
    let mut storage = [0u8; 16];
    let mut encoder = QoiEncoder::new(Cursor::new(&mut storage[..]));
    assert_eq!(
        encoder.encode(&pixels, 2, 1, 4, ColorSpace::Srgb),
        Err(EncoderError::IoError(Error::WriteFailed))
    );
    assert_eq!(encoder.get_ref().position(), 16);
    drop(encoder);
    // What was taken is the start of the full stream, cut where the slice ends.
    assert_eq!(&storage[..], &full[..16]);
}

#[test]
fn slice_cursor_sink_fills_from_position() {
    let mut storage = [9u8; 6];
    let mut cursor = Cursor::new(&mut storage[..]);
    cursor.set_position(2);
    cursor.write_all(&[1, 2]).unwrap();
    assert_eq!(cursor.position(), 4);
    assert_eq!(cursor.write_all(&[3, 4, 5]), Err(Error::WriteFailed));
    assert_eq!(cursor.position(), 6);
    drop(cursor);
    assert_eq!(storage, [9, 9, 1, 2, 3, 4]);
}

#[test]
fn short_read_leaves_source_and_buffer() {
    let data = [1u8, 2, 3];
    let mut source: &[u8] = &data;
    let mut buf = [7u8; 4];
    assert_eq!(source.read_exact(&mut buf), Err(Error::UnexpectedEof));
    assert_eq!(buf, [7, 7, 7, 7]);
    assert_eq!(source, &[1, 2, 3]);
    let mut two = [0u8; 2];
    source.read_exact(&mut two).unwrap();
    assert_eq!(two, [1, 2]);
    assert_eq!(source, &[3]);
}

#[test]
fn slice_cursor_source_reads() {
    let data = [5u8, 6, 7, 8, 9];
    let mut cursor = Cursor::new(&data[..]);
    cursor.set_position(1);
    assert_eq!(cursor.read_u8().unwrap(), 6);
    let mut buf = [0u8; 4];
    assert_eq!(cursor.read_exact(&mut buf), Err(Error::UnexpectedEof));
    assert_eq!(buf, [0, 0, 0, 0]);
    assert_eq!(cursor.position(), 2);
    let mut two = [0u8; 2];
    cursor.read_exact(&mut two).unwrap();
    assert_eq!(two, [7, 8]);
    let encoded = encode(&[1, 1, 1, 255], 1, 1, 4, ColorSpace::Srgb);
    let mut decoder = QoiDecoder::new(Cursor::new(encoded.as_slice())).unwrap();
    let mut out = [0u8; 4];
    assert_eq!(decoder.decode(&mut out).unwrap(), 4);
    assert_eq!(out, [1, 1, 1, 255]);
}

#[test]
fn run_pixels_are_stored_in_the_cache() {
    // A leading run of opaque black stores it at slot 63, so it comes back
    // later as an Index chunk.
    let mut pixels = vec![0, 0, 0, 255, 5, 6, 7, 255];
    pixels.extend_from_slice(&[0, 0, 0, 255]);
    let encoded = encode(&pixels, 3, 1, 4, ColorSpace::Srgb);
    assert_eq!(body(&encoded), &[0x40, 0xC0 | 21, (14 << 4) | 15, 0x3F]);
    assert_eq!(decode_all(&encoded).unwrap().3, pixels);
}

#[test]
fn channel_count_checked_before_color_space_byte() {
    let mut data = header(1, 1, 5, 0);
    data.pop();
    assert_eq!(data.len(), 13);
    assert!(matches!(QoiDecoder::new(data.as_slice()), Err(DecoderError::InvalidChannelCount(5))));
    let mut data = header(1, 1, 4, 0);
    data.pop();
    assert!(matches!(
        QoiDecoder::new(data.as_slice()),
        Err(DecoderError::IoError(Error::UnexpectedEof))
    ));
}
