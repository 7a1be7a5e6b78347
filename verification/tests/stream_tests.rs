use lib::decoder::crc::compute_crc;
use lib::decoder::SbcHeader;
use lib::Decoder;

fn silent_mono_frame() -> Vec<u8> {
    let mut frame = vec![0x9cu8, 0xb1, 2, 0, 0, 0, 0, 0, 0x55, 0x55, 0x55, 0x55];
    let h = SbcHeader::read(&frame).unwrap();
    frame[3] = compute_crc(&h, &frame).unwrap();
    frame
}

fn silent_stereo_frame() -> Vec<u8> {
    let mut frame = vec![0x9cu8, 0xb9, 4, 0];
    let h = SbcHeader::read(&frame).unwrap();
    frame.extend_from_slice(&[0u8; 8]);
    while frame.len() < h.frame_size() {
        frame.push(0x55);
    }
    frame[3] = compute_crc(&h, &frame).unwrap();
    frame
}

#[test]
fn next_frame_walks_the_stream() {
    let mut data = silent_mono_frame();
    data.extend(silent_mono_frame());
    data.extend_from_slice(&[0x9c, 0xb1]);
    let mut decoder = Decoder::new(data);
    let first = decoder.next_frame().map(|f| f.to_vec());
    assert_eq!(first, Some(vec![0i16; 128]));
    let second = decoder.next_frame().map(|f| f.len());
    assert_eq!(second, Some(128));
    assert!(decoder.next_frame().is_none());
}

#[test]
fn next_frame_waits_for_a_whole_frame() {
    let frame = silent_mono_frame();
    let mut decoder = Decoder::new(frame[..7].to_vec());
    assert!(decoder.next_frame().is_none());
    decoder.refill_buffer(&frame[7..]);
    assert_eq!(decoder.next_frame().map(|f| f.len()), Some(128));
    assert!(decoder.next_frame().is_none());
}

#[test]
fn next_frame_interleaves_stereo() {
    let mut decoder = Decoder::new(silent_stereo_frame());
    let out = decoder.next_frame().map(|f| f.to_vec());
    assert_eq!(out, Some(vec![0i16; 256]));
}

#[test]
fn next_frame_lr_gives_both_channels() {
    let mut decoder = Decoder::new(silent_stereo_frame());
    let [l, r] = decoder.next_frame_lr().unwrap();
    assert_eq!(l, &[0i16; 128][..]);
    assert_eq!(r, &[0i16; 128][..]);
    assert!(decoder.next_frame_lr().is_none());
}

#[test]
fn refill_keeps_the_bytes_not_decoded() {
    let frame = silent_mono_frame();
    let mut data = frame.clone();
    data.extend_from_slice(&frame[..5]);
    let mut decoder = Decoder::new(data);
    assert!(decoder.next_frame().is_some());
    assert!(decoder.next_frame().is_none());
    decoder.refill_buffer(&frame[5..]);
    assert!(decoder.next_frame().is_some());
}
