use gif::encoder::{EncodingError, EncodingFormatError};
use gif::format::flag_size;
use gif::io::{ErrorKind, IoError, Write};
use gif::{AnyExtension, DisposalMethod, Encoder, ExtensionData, Frame, Repeat};

const HEADER_1X1: [u8; 13] = [
    0x47, 0x49, 0x46, 0x38, 0x39, 0x61, 0x01, 0x00, 0x01, 0x00, 0x80, 0x00, 0x00,
];

fn netscape(loops: [u8; 2]) -> Vec<u8> {
    let mut v = vec![0x21, 0xFF, 0x0B];
    v.extend_from_slice(b"NETSCAPE2.0");
    v.extend_from_slice(&[0x03, 0x01, loops[0], loops[1], 0x00]);
    v
}

fn frame_1x1(index: u8) -> Frame {
    let mut frame = Frame::default();
    frame.width = 1;
    frame.height = 1;
    frame.dispose = DisposalMethod::Any;
    frame.buffer = vec![index];
    frame
}

/// Reassembles the payload of a chain of sub-blocks starting at `pos`;
/// returns it and the position after the terminator.
fn unblock(bytes: &[u8], mut pos: usize) -> (Vec<u8>, usize) {
    let mut out = Vec::new();
    loop {
        let len = bytes[pos] as usize;
        pos += 1;
        if len == 0 {
            return (out, pos);
        }
        out.extend_from_slice(&bytes[pos..pos + len]);
        pos += len;
    }
}

fn encoder_with_global() -> Encoder<Vec<u8>> {
    Encoder::new(Vec::new(), 4, 4, &[0xFF, 0xFF, 0xFF, 0, 0, 0]).unwrap()
}

#[test]
fn test_flag_size() {
    fn expected(size: usize) -> u8 {
        match size {
            0..=2 => 0,
            3..=4 => 1,
            5..=8 => 2,
            9..=16 => 3,
            17..=32 => 4,
            33..=64 => 5,
            65..=128 => 6,
            129..=256 => 7,
            _ => 7,
        }
    }

    for i in 0..300 {
        assert_eq!(flag_size(i), expected(i));
    }
    for i in 4..=255u8 {
        let expected = match flag_size(1 + i as usize) + 1 {
            1 => 2,
            n => n,
        };
        let actual = (u32::from(i) + 1).max(4).next_power_of_two().trailing_zeros() as u8;
        assert_eq!(actual, expected);
    }
}

#[test]
fn error_cast() {
    let err = EncodingError::from(EncodingFormatError::MissingColorPalette);
    assert!(matches!(
        err,
        EncodingError::Format(EncodingFormatError::MissingColorPalette)
    ));
    let err = EncodingError::from(IoError::new(ErrorKind::BrokenPipe));
    assert!(matches!(err, EncodingError::Io(ref e) if e.kind() == ErrorKind::BrokenPipe));
}

#[test]
fn flag_size_table_up_to_300() {
    for n in 0..=300usize {
        let t = flag_size(n);
        assert!(t <= 7);
        if n <= 256 {
            assert!(n <= 2usize << t);
        }
        if t > 0 {
            assert!(n > 1usize << t);
        }
    }
}

#[test]
fn minimum_file_without_palette() {
    let enc = Encoder::new(Vec::new(), 1, 1, &[]).unwrap();
    let out = enc.into_inner().unwrap();
    let mut expected = HEADER_1X1.to_vec();
    expected.push(0x3B);
    assert_eq!(out, expected);
}

#[test]
fn two_color_palette_single_pixel() {
    let mut enc = Encoder::new(Vec::new(), 1, 1, &[0xFF, 0xFF, 0xFF, 0x00, 0x00, 0x00]).unwrap();
    enc.write_frame(&frame_1x1(0)).unwrap();
    let out = enc.into_inner().unwrap();
    assert_eq!(out[10], 0x80);
    assert_eq!(&out[13..19], &[0xFF, 0xFF, 0xFF, 0x00, 0x00, 0x00]);
    assert_eq!(&out[19..27], &[0x21, 0xF9, 0x04, 0x00, 0x00, 0x00, 0x00, 0x00]);
    assert_eq!(&out[27..37], &[0x2C, 0, 0, 0, 0, 1, 0, 1, 0, 0x00]);
    assert_eq!(out[37], 0x02);
    assert_eq!(*out.last().unwrap(), 0x3B);
}

#[test]
fn loop_extension_elision() {
    let mut enc = Encoder::new(Vec::new(), 1, 1, &[]).unwrap();
    enc.set_repeat(Repeat::Finite(0)).unwrap();
    assert_eq!(enc.get_ref().len(), 13);
    enc.set_repeat(Repeat::Infinite).unwrap();
    assert_eq!(&enc.get_ref()[13..], &netscape([0x00, 0x00])[..]);
    enc.set_repeat(Repeat::Finite(3)).unwrap();
    assert_eq!(&enc.get_ref()[32..], &netscape([0x03, 0x00])[..]);
}

#[test]
fn repeat_default_is_finite_zero() {
    assert_eq!(Repeat::default(), Repeat::Finite(0));
}

#[test]
fn palette_padding_five_colors() {
    let palette: Vec<u8> = (1..=15).collect();
    let enc = Encoder::new(Vec::new(), 1, 1, &palette).unwrap();
    let out = enc.get_ref();
    assert_eq!(out[10], 0x80 | (2 << 4) | 2);
    assert_eq!(out.len(), 13 + 24);
    assert_eq!(&out[13..28], &palette[..]);
    assert!(out[28..37].iter().all(|&b| b == 0));
}

#[test]
fn palette_ignores_partial_triplet() {
    let enc = Encoder::new(Vec::new(), 1, 1, &[1, 2, 3, 4, 5, 6, 7]).unwrap();
    assert_eq!(&enc.get_ref()[13..], &[1, 2, 3, 4, 5, 6]);
}

#[test]
fn oversize_global_palette() {
    let palette = vec![7u8; 257 * 3];
    let result = Encoder::new(Vec::new(), 1, 1, &palette);
    assert!(matches!(
        result,
        Err(EncodingError::Format(EncodingFormatError::TooManyColors))
    ));
}

#[test]
fn full_palette_of_256_colors() {
    let palette = vec![7u8; 256 * 3];
    let enc = Encoder::new(Vec::new(), 1, 1, &palette).unwrap();
    assert_eq!(enc.get_ref()[10], 0xF7);
    assert_eq!(enc.get_ref().len(), 13 + 768);
}

#[test]
fn oversize_local_palette_writes_nothing() {
    let mut enc = encoder_with_global();
    let before = enc.get_ref().len();
    let mut frame = frame_1x1(0);
    frame.palette = Some(vec![1u8; 257 * 3]);
    let result = enc.write_frame(&frame);
    assert!(matches!(
        result,
        Err(EncodingError::Format(EncodingFormatError::TooManyColors))
    ));
    assert_eq!(enc.get_ref().len(), before);
}

#[test]
fn missing_palette() {
    let mut enc = Encoder::new(Vec::new(), 1, 1, &[]).unwrap();
    let result = enc.write_frame(&frame_1x1(0));
    assert!(matches!(
        result,
        Err(EncodingError::Format(EncodingFormatError::MissingColorPalette))
    ));
    assert_eq!(enc.get_ref().len(), 13);
}

#[test]
fn local_palette_without_global() {
    let mut enc = Encoder::new(Vec::new(), 1, 1, &[]).unwrap();
    let mut frame = frame_1x1(1);
    frame.palette = Some(vec![0, 0, 0, 255, 255, 255, 9, 9, 9]);
    frame.interlaced = true;
    enc.write_frame(&frame).unwrap();
    let out = enc.get_ref();
    assert_eq!(out[13 + 8 + 9], 0x80 | 0x40 | 1);
    assert_eq!(&out[31..43], &[0, 0, 0, 255, 255, 255, 9, 9, 9, 0, 0, 0]);
    assert_eq!(out[43], 2);
}

#[test]
fn frame_buffer_too_small() {
    let mut enc = encoder_with_global();
    let before = enc.get_ref().len();
    let mut frame = frame_1x1(0);
    frame.width = 2;
    frame.height = 2;
    frame.buffer = vec![0, 0, 0];
    let result = enc.write_frame(&frame);
    assert!(matches!(
        result,
        Err(EncodingError::FrameBufferTooSmallForDimensions)
    ));
    assert_eq!(enc.get_ref().len(), before);
}

#[test]
fn largest_frame_dimensions_overflow_buffer() {
    let mut enc = encoder_with_global();
    let mut frame = frame_1x1(0);
    frame.width = u16::MAX;
    frame.height = u16::MAX;
    assert!(matches!(
        enc.write_frame(&frame),
        Err(EncodingError::FrameBufferTooSmallForDimensions)
    ));
}

#[test]
fn pre_encoded_min_code_size_bounds() {
    let mut enc = encoder_with_global();
    for bad in [0x00u8, 0x01, 0x0C, 0xFF] {
        let before = enc.get_ref().len();
        let mut frame = frame_1x1(0);
        frame.buffer = vec![bad, 0x00];
        let result = enc.write_lzw_pre_encoded_frame(&frame);
        assert!(matches!(
            result,
            Err(EncodingError::Format(EncodingFormatError::InvalidMinCodeSize))
        ));
        assert_eq!(enc.get_ref().len(), before);
    }
    for good in [0x02u8, 0x08, 0x0B] {
        let mut frame = frame_1x1(0);
        frame.buffer = vec![good, 0x01, 0x02];
        enc.write_lzw_pre_encoded_frame(&frame).unwrap();
        let out = enc.get_ref();
        assert_eq!(&out[out.len() - 5..], &[good, 0x02, 0x01, 0x02, 0x00]);
    }
}

#[test]
fn pre_encoded_empty_buffer() {
    let mut enc = encoder_with_global();
    let mut frame = frame_1x1(0);
    frame.width = 0;
    frame.height = 0;
    frame.buffer = Vec::new();
    enc.write_lzw_pre_encoded_frame(&frame).unwrap();
    let out = enc.get_ref();
    assert_eq!(&out[out.len() - 2..], &[0x02, 0x00]);
}

#[test]
fn sub_block_chunking_510_and_511() {
    for (len, tail) in [(510usize, vec![0x00u8]), (511, vec![0x01, 0xAB, 0x00])] {
        let mut enc = encoder_with_global();
        let mut frame = frame_1x1(0);
        let mut payload = vec![0x08u8];
        payload.extend(std::iter::repeat(0xABu8).take(len));
        frame.buffer = payload;
        let start = enc.get_ref().len() + 8 + 10;
        enc.write_lzw_pre_encoded_frame(&frame).unwrap();
        let out = enc.get_ref();
        assert_eq!(out[start], 0x08);
        assert_eq!(out[start + 1], 0xFF);
        assert!(out[start + 2..start + 257].iter().all(|&b| b == 0xAB));
        assert_eq!(out[start + 257], 0xFF);
        assert!(out[start + 258..start + 513].iter().all(|&b| b == 0xAB));
        assert_eq!(&out[start + 513..], &tail[..]);
    }
}

#[test]
fn control_extension_fields() {
    let ext = ExtensionData::new_control_ext(300, DisposalMethod::Background, true, Some(7));
    assert!(matches!(
        ext,
        ExtensionData::Control { flags: 0x0B, delay: 300, trns: 7 }
    ));
    let ext = ExtensionData::new_control_ext(0, DisposalMethod::Previous, false, None);
    assert!(matches!(
        ext,
        ExtensionData::Control { flags: 0x0C, delay: 0, trns: 0 }
    ));
    let mut enc = Encoder::new(Vec::new(), 1, 1, &[]).unwrap();
    enc.write_extension(ExtensionData::new_control_ext(300, DisposalMethod::Keep, false, Some(5)))
        .unwrap();
    assert_eq!(&enc.get_ref()[13..], &[0x21, 0xF9, 0x04, 0x05, 0x2C, 0x01, 0x05, 0x00]);
}

#[test]
fn frame_control_extension_always_written() {
    let mut enc = encoder_with_global();
    let mut frame = frame_1x1(1);
    frame.delay = 10;
    frame.transparent = Some(1);
    frame.needs_user_input = true;
    frame.dispose = DisposalMethod::Keep;
    frame.left = 0x0102;
    frame.top = 0x0304;
    enc.write_frame(&frame).unwrap();
    let out = enc.get_ref();
    assert_eq!(&out[19..27], &[0x21, 0xF9, 0x04, 0x07, 0x0A, 0x00, 0x01, 0x00]);
    assert_eq!(&out[27..37], &[0x2C, 0x02, 0x01, 0x04, 0x03, 1, 0, 1, 0, 0x00]);
}

#[test]
fn raw_extension_chunks_each_slice() {
    let mut enc = Encoder::new(Vec::new(), 1, 1, &[]).unwrap();
    let long = vec![0x55u8; 300];
    let short = [1u8, 2, 3];
    let empty: [u8; 0] = [];
    enc.write_raw_extension(AnyExtension(0xFE), &[&long, &empty, &short]).unwrap();
    let out = &enc.get_ref()[13..];
    assert_eq!(&out[..2], &[0x21, 0xFE]);
    assert_eq!(out[2], 0xFF);
    assert_eq!(out[258], 45);
    assert_eq!(&out[304..], &[3, 1, 2, 3, 0]);
}

#[test]
fn min_code_size_follows_largest_index() {
    let cases: [(&[u8], u8); 9] = [
        (&[], 2),
        (&[0, 1, 3], 2),
        (&[4], 3),
        (&[7, 0], 3),
        (&[8], 4),
        (&[31], 5),
        (&[64], 7),
        (&[1, 200, 3], 8),
        (&[255], 8),
    ];
    for (data, expected) in cases {
        let mut frame = frame_1x1(0);
        frame.buffer = data.to_vec();
        frame.make_lzw_pre_encoded();
        assert_eq!(frame.buffer[0], expected);
        let max = data.iter().copied().max().unwrap_or(0) as u32;
        assert!(max < (1u32 << expected));
    }
}

fn decode_first_frame(out: &[u8], frame_start: usize) -> Vec<u8> {
    let min_code_size = out[frame_start];
    let (data, _) = unblock(out, frame_start + 1);
    weezl::decode::Decoder::new(weezl::BitOrder::Lsb, min_code_size)
        .decode(&data)
        .unwrap()
}

#[test]
fn round_trip_through_lzw_decoder() {
    let pixels: Vec<u8> = (0..40 * 30).map(|i| ((i * 7) % 13) as u8).collect();
    let mut palette = Vec::new();
    for i in 0..16u8 {
        palette.extend_from_slice(&[i, i, i]);
    }
    let mut enc = Encoder::new(Vec::new(), 40, 30, &palette).unwrap();
    let mut frame = Frame::default();
    frame.width = 40;
    frame.height = 30;
    frame.buffer = pixels.clone();
    let start = enc.get_ref().len() + 8 + 10;
    enc.write_frame(&frame).unwrap();
    let out = enc.into_inner().unwrap();
    assert_eq!(decode_first_frame(&out, start), pixels);
}

#[test]
fn round_trip_large_frame_many_sub_blocks() {
    let pixels: Vec<u8> = (0..200u32 * 200).map(|i| (i.wrapping_mul(2654435761) >> 24) as u8).collect();
    let mut enc = Encoder::new(Vec::new(), 200, 200, &vec![3u8; 768]).unwrap();
    let mut frame = Frame::default();
    frame.width = 200;
    frame.height = 200;
    frame.buffer = pixels.clone();
    let start = enc.get_ref().len() + 8 + 10;
    enc.write_frame(&frame).unwrap();
    let out = enc.into_inner().unwrap();
    assert_eq!(out[start], 8);
    assert_eq!(decode_first_frame(&out, start), pixels);
}

#[test]
fn precompressed_frame_writes_same_bytes() {
    let pixels: Vec<u8> = (0..64).map(|i| (i % 5) as u8).collect();
    let mut frame = Frame::default();
    frame.width = 8;
    frame.height = 8;
    frame.delay = 4;
    frame.buffer = pixels;
    let mut normal = encoder_with_global();
    normal.write_frame(&frame).unwrap();
    let mut pre = encoder_with_global();
    let mut compressed = frame.clone();
    compressed.make_lzw_pre_encoded();
    assert_ne!(compressed.buffer, frame.buffer);
    pre.write_lzw_pre_encoded_frame(&compressed).unwrap();
    assert_eq!(normal.into_inner().unwrap(), pre.into_inner().unwrap());
}

#[test]
fn stream_has_one_signature_and_one_trailer() {
    let mut enc = encoder_with_global();
    enc.set_repeat(Repeat::Infinite).unwrap();
    enc.write_frame(&frame_1x1(1)).unwrap();
    enc.write_extension(ExtensionData::new_control_ext(1, DisposalMethod::Any, false, None))
        .unwrap();
    let out = enc.into_inner().unwrap();
    assert_eq!(&out[..6], b"GIF89a");
    assert_eq!(out.windows(6).filter(|w| *w == b"GIF89a").count(), 1);
    assert_eq!(*out.last().unwrap(), 0x3B);
    assert_ne!(out[out.len() - 2], 0x3B);
}

#[test]
fn dropping_encoder_writes_trailer() {
    struct Shared(std::rc::Rc<std::cell::RefCell<Vec<u8>>>);
    impl Write for Shared {
        fn write(&mut self, buf: &[u8]) -> gif::io::Result<usize> {
            self.0.borrow_mut().extend_from_slice(buf);
            Ok(buf.len())
        }
        fn flush(&mut self) -> gif::io::Result<()> {
            Ok(())
        }
    }
    let data = std::rc::Rc::new(std::cell::RefCell::new(Vec::new()));
    {
        let _enc = Encoder::new(Shared(data.clone()), 1, 1, &[]).unwrap();
    }
    let mut expected = HEADER_1X1.to_vec();
    expected.push(0x3B);
    assert_eq!(*data.borrow(), expected);
}

#[test]
fn failing_sink_reports_io_error() {
    struct Full;
    impl Write for Full {
        fn write(&mut self, _buf: &[u8]) -> gif::io::Result<usize> {
            Ok(0)
        }
        fn flush(&mut self) -> gif::io::Result<()> {
            Ok(())
        }
    }
    let result = Encoder::new(Full, 1, 1, &[]);
    match result {
        Err(EncodingError::Io(e)) => assert_eq!(e.kind(), ErrorKind::WriteZero),
        _ => panic!("expected an I/O error"),
    }
}

#[test]
fn get_mut_reaches_sink() {
    let mut enc = Encoder::new(Vec::new(), 1, 1, &[]).unwrap();
    enc.get_mut().push(0x99);
    assert_eq!(enc.get_ref().len(), 14);
}

#[test]
fn borrowed_sink_gets_trailer_once() {
    let mut out: Vec<u8> = vec![0xEE];
    {
        let enc = Encoder::new(&mut out, 1, 1, &[]).unwrap();
        enc.into_inner().unwrap();
    }
    let mut expected = vec![0xEE];
    expected.extend_from_slice(&HEADER_1X1);
    expected.push(0x3B);
    assert_eq!(out, expected);
}

#[test]
fn borrowed_sink_dropped_encoder_writes_trailer() {
    let mut out: Vec<u8> = Vec::new();
    {
        let mut enc = Encoder::new(&mut out, 1, 1, &[]).unwrap();
        enc.set_repeat(Repeat::Infinite).unwrap();
    }
    assert_eq!(out.len(), 13 + 19 + 1);
    assert_eq!(*out.last().unwrap(), 0x3B);
    assert_eq!(out.iter().filter(|&&b| b == 0x3B).count(), 1);
}
