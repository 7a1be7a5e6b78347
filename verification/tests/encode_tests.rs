use lib::raw::encode::sbc_encode;
use lib::raw::{
    sbc, sbc_decode, sbc_frame, sbc_get_frame_size, sbc_probe, SBC_BAM_LOUDNESS, SBC_BAM_SNR,
    SBC_FREQ_16K, SBC_FREQ_44K1, SBC_FREQ_48K, SBC_MODE_DUAL_CHANNEL, SBC_MODE_JOINT_STEREO,
    SBC_MODE_MONO, SBC_MODE_STEREO,
};

fn frame(freq: u32, mode: u32, bam: u32, nblocks: i32, nsubbands: i32, bitpool: i32) -> sbc_frame {
    sbc_frame { msbc: false, freq, mode, bam, nblocks, nsubbands, bitpool }
}

fn crc_of(data: &[u8]) -> u8 {
    let h = lib::decoder::SbcHeader::read(data).unwrap();
    lib::decoder::crc::compute_crc(&h, data).unwrap()
}

#[test]
fn silent_mono_frame_bytes() {
    // 44.1 kHz, mono, 4 blocks, 4 subbands, loudness, bitpool 2: scale factors of
    // zero, and the two bits of the bitpool given to the first subband, each of its
    // samples quantized to 01.
    let f = frame(SBC_FREQ_44K1, SBC_MODE_MONO, SBC_BAM_LOUDNESS, 4, 4, 2);
    assert_eq!(sbc_get_frame_size(&f), 7);
    let pcm = vec![0i16; 16];
    let mut state = sbc::new();
    let mut data = vec![0xeeu8; 9];
    assert_eq!(sbc_encode(&mut state, &pcm, 1, &[], 1, &f, &mut data), 0);
    assert_eq!(&data[0..3], &[0x9c, 0x80, 0x02]);
    assert_eq!(&data[4..7], &[0x00, 0x00, 0x55]);
    assert_eq!(data[3], crc_of(&data));
    // Bytes past the frame are left alone.
    assert_eq!(&data[7..9], &[0xee, 0xee]);
}

#[test]
fn encoded_header_reads_back() {
    let f = frame(SBC_FREQ_48K, SBC_MODE_JOINT_STEREO, SBC_BAM_SNR, 12, 8, 35);
    let size = sbc_get_frame_size(&f) as usize;
    let pcm = vec![100i16; 256];
    let mut state = sbc::new();
    let mut data = vec![0u8; size];
    assert_eq!(sbc_encode(&mut state, &pcm, 2, &pcm[1..], 2, &f, &mut data), 0);
    assert_eq!(data[0], 0x9c);
    // 48 kHz (3), 12 blocks (2), joint stereo (3), SNR (1), 8 subbands (1).
    assert_eq!(data[1], 0b11_10_11_1_1);
    assert_eq!(data[2], 35);
    let mut g = frame(0, 0, 0, 0, 0, 0);
    assert_eq!(sbc_probe(&data, &mut g), 0);
    assert_eq!(g.freq, f.freq);
    assert_eq!(g.mode, f.mode);
    assert_eq!(g.bam, f.bam);
    assert_eq!(g.nblocks, f.nblocks);
    assert_eq!(g.nsubbands, f.nsubbands);
    assert_eq!(g.bitpool, f.bitpool);
}

#[test]
fn msbc_frame_encodes_with_its_own_parameters() {
    // The other parameters are ignored for an mSBC frame.
    let mut f = frame(SBC_FREQ_44K1, SBC_MODE_STEREO, SBC_BAM_SNR, 4, 4, 200);
    f.msbc = true;
    let pcm = vec![0i16; 120];
    let mut state = sbc::new();
    let mut data = vec![0u8; lib::SBC_MSBC_SIZE];
    assert_eq!(sbc_encode(&mut state, &pcm, 1, &[], 1, &f, &mut data), 0);
    assert_eq!(&data[0..3], &[0xad, 0x00, 0x00]);
    assert_eq!(data[3], crc_of(&data));
    let mut g = frame(0, 0, 0, 0, 0, 0);
    assert_eq!(sbc_probe(&data, &mut g), 0);
    assert!(g.msbc);
    assert_eq!(g.nblocks, 15);
    assert_eq!(g.bitpool, 26);
}

#[test]
fn encode_refuses_invalid_parameters() {
    let f = frame(SBC_FREQ_44K1, SBC_MODE_MONO, SBC_BAM_LOUDNESS, 15, 8, 10);
    let pcm = vec![0i16; 128];
    let mut state = sbc::new();
    let mut data = vec![7u8; 64];
    assert_eq!(sbc_encode(&mut state, &pcm, 1, &[], 1, &f, &mut data), -1);
    assert!(data.iter().all(|&b| b == 7));
    let f = frame(SBC_FREQ_44K1, SBC_MODE_MONO, SBC_BAM_LOUDNESS, 16, 8, 200);
    assert_eq!(sbc_encode(&mut state, &pcm, 1, &[], 1, &f, &mut data), -1);
    assert!(data.iter().all(|&b| b == 7));
}

#[test]
fn encode_refuses_a_short_buffer() {
    let f = frame(SBC_FREQ_44K1, SBC_MODE_MONO, SBC_BAM_LOUDNESS, 16, 8, 20);
    let size = sbc_get_frame_size(&f) as usize;
    let pcm = vec![0i16; 128];
    let mut state = sbc::new();
    let mut data = vec![7u8; size - 1];
    assert_eq!(sbc_encode(&mut state, &pcm, 1, &[], 1, &f, &mut data), -1);
    assert!(data.iter().all(|&b| b == 7));
    let mut data = vec![7u8; size];
    assert_eq!(sbc_encode(&mut state, &pcm, 1, &[], 1, &f, &mut data), 0);
}

fn sine(n: usize, period: f64, amplitude: f64, phase: usize) -> Vec<i16> {
    (0..n)
        .map(|i| ((2.0 * std::f64::consts::PI * (i + phase) as f64 / period).sin() * amplitude) as i16)
        .collect()
}

fn round_trip(f: sbc_frame, frames: usize) -> (Vec<i16>, Vec<i16>) {
    let n = (f.nblocks * f.nsubbands) as usize;
    let size = sbc_get_frame_size(&f) as usize;
    let input = sine(n * frames, 37.0, 8000.0, 0);
    let right = sine(n * frames, 53.0, 6000.0, 11);
    let mut enc = sbc::new();
    let mut dec = sbc::new();
    let mut output = Vec::new();
    for k in 0..frames {
        let mut data = vec![0u8; size];
        let r = sbc_encode(&mut enc, &input[k * n..(k + 1) * n], 1, &right[k * n..(k + 1) * n], 1, &f, &mut data);
        assert_eq!(r, 0);
        let mut g = frame(0, 0, 0, 0, 0, 0);
        let mut pcm = vec![0i16; 2 * n];
        assert_eq!(sbc_decode(&mut dec, Some(&data), &mut g, &mut pcm, 0, 2, 1, 2), 0);
        for i in 0..n {
            output.push(pcm[2 * i]);
        }
    }
    (input, output)
}

/// The largest difference between the input and the output delayed by `delay`.
fn max_error(input: &[i16], output: &[i16], delay: usize, from: usize) -> i32 {
    (from..input.len() - delay)
        .map(|i| (input[i] as i32 - output[i + delay] as i32).abs())
        .max()
        .unwrap()
}

#[test]
fn round_trip_joint_stereo_8_subbands() {
    let f = frame(SBC_FREQ_44K1, SBC_MODE_JOINT_STEREO, SBC_BAM_LOUDNESS, 16, 8, 53);
    let (input, output) = round_trip(f, 8);
    // The analysis and synthesis filters delay the signal by 73 samples.
    assert!(max_error(&input, &output, 73, 128) < 800);
}

#[test]
fn round_trip_mono_4_subbands() {
    let f = frame(SBC_FREQ_16K, SBC_MODE_MONO, SBC_BAM_SNR, 16, 4, 30);
    let (input, output) = round_trip(f, 8);
    // With 4 subbands the delay is 37 samples.
    assert!(max_error(&input, &output, 37, 64) < 800);
}

#[test]
fn round_trip_dual_and_stereo_decode() {
    for mode in [SBC_MODE_DUAL_CHANNEL, SBC_MODE_STEREO] {
        let f = frame(SBC_FREQ_48K, mode, SBC_BAM_LOUDNESS, 8, 8, 32);
        let (input, output) = round_trip(f, 6);
        assert_eq!(input.len(), output.len());
    }
}

#[test]
fn reset_restores_a_fresh_encoder() {
    let f = frame(SBC_FREQ_44K1, SBC_MODE_STEREO, SBC_BAM_LOUDNESS, 8, 8, 30);
    let size = sbc_get_frame_size(&f) as usize;
    let left = sine(64, 17.0, 5000.0, 0);
    let right = sine(64, 23.0, 4000.0, 3);
    let mut fresh = sbc::new();
    let mut first = vec![0u8; size];
    assert_eq!(sbc_encode(&mut fresh, &left, 1, &right, 1, &f, &mut first), 0);
    // The filters remember the samples they saw: the same input encodes differently.
    let mut second = vec![0u8; size];
    assert_eq!(sbc_encode(&mut fresh, &left, 1, &right, 1, &f, &mut second), 0);
    assert_ne!(first, second);
    lib::raw::sbc_reset(&mut fresh);
    let mut third = vec![0u8; size];
    assert_eq!(sbc_encode(&mut fresh, &left, 1, &right, 1, &f, &mut third), 0);
    assert_eq!(first, third);
}

#[test]
fn interleaved_input_with_a_pitch() {
    // Stereo samples interleaved in one buffer, read with a pitch of two.
    let f = frame(SBC_FREQ_48K, SBC_MODE_JOINT_STEREO, SBC_BAM_LOUDNESS, 16, 8, 40);
    let size = sbc_get_frame_size(&f) as usize;
    let left = sine(128, 29.0, 7000.0, 0);
    let right = sine(128, 31.0, 3000.0, 5);
    let mut interleaved = Vec::new();
    for i in 0..128 {
        interleaved.push(left[i]);
        interleaved.push(right[i]);
    }
    let mut a = sbc::new();
    let mut b = sbc::new();
    let mut from_planar = vec![0u8; size];
    let mut from_interleaved = vec![0u8; size];
    assert_eq!(sbc_encode(&mut a, &left, 1, &right, 1, &f, &mut from_planar), 0);
    assert_eq!(sbc_encode(&mut b, &interleaved, 2, &interleaved[1..], 2, &f, &mut from_interleaved), 0);
    assert_eq!(from_planar, from_interleaved);
}
