use lib::decoder::crc::compute_crc;
use lib::decoder::{decode, ChannelMode, Decoder, Error, OutputFormat, Reason, SbcHeader};

/// A mono frame of 16 blocks of 8 subbands, bitpool 2: all scale factors zero, and
/// the samples of the first subband coded as 1 on 2 bits, which scale back to zero.
fn silent_mono_frame() -> Vec<u8> {
    let mut frame = vec![0x9cu8, 0xb1, 2, 0, 0, 0, 0, 0, 0x55, 0x55, 0x55, 0x55];
    let h = SbcHeader::read(&frame).unwrap();
    frame[3] = compute_crc(&h, &frame).unwrap();
    frame
}

/// A stereo frame of 16 blocks of 8 subbands, bitpool 4, silent in both channels.
fn silent_stereo_frame() -> Vec<u8> {
    // 44.1 kHz, 16 blocks, stereo, loudness, 8 subbands.
    let mut frame = vec![0x9cu8, 0xb9, 4];
    frame.push(0);
    let h = SbcHeader::read(&frame).unwrap();
    assert_eq!(h.mode, ChannelMode::Stereo);
    let size = h.frame_size();
    // 64 bits of zero scale factors, then 16 blocks of 2 bits for the first subband of
    // each channel: 64 bits of 01.
    frame.extend_from_slice(&[0u8; 8]);
    while frame.len() < size {
        frame.push(0x55);
    }
    frame[3] = compute_crc(&h, &frame).unwrap();
    frame
}

#[test]
fn silent_frame_decodes_to_silence() {
    let frame = silent_mono_frame();
    let mut decoder = Decoder::new();
    let mut out = vec![7i16; 128];
    let status = decoder.decode(&frame, OutputFormat::Mono(&mut out)).unwrap();
    assert_eq!(status.bytes_read, 12);
    assert_eq!(status.samples_written, 128);
    assert_eq!(status.channels, 1);
    assert!(out.iter().all(|&s| s == 0));
}

#[test]
fn silent_stereo_frame_decodes_interleaved() {
    let frame = silent_stereo_frame();
    let mut decoder = Decoder::new();
    let mut out = vec![7i16; 256];
    let status = decoder.decode(&frame, OutputFormat::Auto(&mut out)).unwrap();
    assert_eq!(status.channels, 2);
    assert_eq!(status.samples_written, 128);
    assert!(out.iter().all(|&s| s == 0));
}

#[test]
fn stereo_frame_into_mono_output_writes_left_only() {
    let frame = silent_stereo_frame();
    let mut decoder = Decoder::new();
    let mut out = vec![7i16; 130];
    decoder.decode(&frame, OutputFormat::Mono(&mut out)).unwrap();
    assert!(out[..128].iter().all(|&s| s == 0));
    assert_eq!(&out[128..], &[7, 7]);
}

#[test]
fn planar_output_fills_both_buffers() {
    let frame = silent_stereo_frame();
    let mut decoder = Decoder::new();
    let mut left = vec![7i16; 128];
    let mut right = vec![7i16; 129];
    decoder.decode(&frame, OutputFormat::Planar(&mut left, &mut right)).unwrap();
    assert!(left.iter().all(|&s| s == 0));
    assert!(right[..128].iter().all(|&s| s == 0));
    assert_eq!(right[128], 7);
}

#[test]
fn frame_with_bad_crc_is_refused() {
    let mut frame = silent_mono_frame();
    frame[3] ^= 1;
    let mut decoder = Decoder::new();
    let mut out = vec![7i16; 128];
    let r = decoder.decode(&frame, OutputFormat::Mono(&mut out));
    assert!(matches!(r, Err(Error::BadData(Reason::InvalidCrc))));
    assert!(out.iter().all(|&s| s == 7));
}

#[test]
fn short_frame_is_refused() {
    let frame = silent_mono_frame();
    let mut decoder = Decoder::new();
    let mut out = vec![0i16; 128];
    let r = decoder.decode(&frame[..10], OutputFormat::Mono(&mut out));
    assert!(matches!(r, Err(Error::NotEnoughData { expected: 12, actual: 10 })));
}

#[test]
fn nonzero_padding_is_refused() {
    // Joint stereo, 4 subbands, 4 blocks, bitpool 2: the payload does not end on a byte.
    let mut frame = vec![0x9cu8, 0x0c, 2, 0];
    let h = SbcHeader::read(&frame).unwrap();
    let size = h.frame_size();
    while frame.len() < size {
        frame.push(0);
    }
    frame[3] = compute_crc(&h, &frame).unwrap();
    let mut decoder = Decoder::new();
    let mut out = vec![0i16; 64];
    assert!(decoder.decode(&frame, OutputFormat::Auto(&mut out)).is_ok());
    let last = frame.len() - 1;
    frame[last] = 1;
    let r = decoder.decode(&frame, OutputFormat::Auto(&mut out));
    assert!(matches!(r, Err(Error::BadData(Reason::UnexpectedData))));
}

#[test]
fn small_output_buffer_is_refused() {
    let frame = silent_mono_frame();
    let mut decoder = Decoder::new();
    let mut out = vec![7i16; 100];
    let r = decoder.decode(&frame, OutputFormat::Mono(&mut out));
    assert!(matches!(r, Err(Error::OutputBufferTooSmall { expected: 128, actual: 100 })));
    assert!(out.iter().all(|&s| s == 7));
}

#[test]
fn small_right_buffer_is_refused_after_the_left() {
    let frame = silent_stereo_frame();
    let mut decoder = Decoder::new();
    let mut left = vec![7i16; 128];
    let mut right = vec![7i16; 10];
    let r = decoder.decode(&frame, OutputFormat::Planar(&mut left, &mut right));
    assert!(matches!(r, Err(Error::OutputBufferTooSmall { expected: 128, actual: 10 })));
    assert!(left.iter().all(|&s| s == 0));
    assert!(right.iter().all(|&s| s == 7));
}

/// A mono frame whose samples are all coded as 0 on 2 bits: a loud first subband.
fn loud_mono_frame() -> Vec<u8> {
    let mut frame = vec![0x9cu8, 0xb1, 2, 0, 0, 0, 0, 0, 0, 0, 0, 0];
    let h = SbcHeader::read(&frame).unwrap();
    frame[3] = compute_crc(&h, &frame).unwrap();
    frame
}

#[test]
fn decoding_depends_on_the_history_and_reset_forgets_it() {
    let frame = loud_mono_frame();
    let mut fresh = Decoder::new();
    let mut first = vec![0i16; 128];
    fresh.decode(&frame, OutputFormat::Mono(&mut first)).unwrap();
    assert!(first.iter().any(|&s| s != 0));

    let mut second = vec![0i16; 128];
    fresh.decode(&frame, OutputFormat::Mono(&mut second)).unwrap();
    assert_ne!(first, second);

    fresh.reset();
    let mut again = vec![0i16; 128];
    fresh.decode(&frame, OutputFormat::Mono(&mut again)).unwrap();
    assert_eq!(first, again);
}

#[test]
fn trailing_bytes_do_not_change_a_frame() {
    let frame = loud_mono_frame();
    let mut longer = frame.clone();
    longer.extend_from_slice(&[0xde, 0xad, 0xbe, 0xef]);
    let mut a = Decoder::new();
    let mut b = Decoder::new();
    let mut out_a = vec![0i16; 128];
    let mut out_b = vec![0i16; 128];
    let sa = a.decode(&frame, OutputFormat::Mono(&mut out_a)).unwrap();
    let sb = b.decode(&longer, OutputFormat::Mono(&mut out_b)).unwrap();
    assert_eq!(sa.bytes_read, sb.bytes_read);
    assert_eq!(out_a, out_b);
}

#[test]
fn checking_decode_accepts_a_good_frame_and_leaves_output() {
    let frame = silent_mono_frame();
    let mut out = vec![3i16; 4];
    assert!(decode(&frame, &mut out).is_ok());
    assert_eq!(out, vec![3i16; 4]);
    let mut bad = frame.clone();
    bad[4] = 1;
    let e = decode(&bad, &mut out).unwrap_err();
    assert_eq!(e.error, Error::BadData(Reason::InvalidCrc));
}
