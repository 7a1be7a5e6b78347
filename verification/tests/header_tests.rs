use lib::decoder::crc::compute_crc;
use lib::decoder::{Bam, ChannelMode, Error, Frequency, Reason, SbcHeader};

#[test]
fn reads_an_a2dp_header() {
    // 44.1 kHz, 16 blocks, joint stereo, loudness, 8 subbands, bitpool 53.
    let data = [0x9cu8, 0xbd, 53, 0x42];
    let h = SbcHeader::read(&data).unwrap();
    assert!(!h.msbc);
    assert_eq!(h.freq, Frequency::Hz44k);
    assert_eq!(h.blocks, 16);
    assert_eq!(h.mode, ChannelMode::JointStereo);
    assert_eq!(h.bam, Bam::Loudness);
    assert_eq!(h.subbands, 8);
    assert_eq!(h.bitpool, 53);
    assert_eq!(h.crc, 0x42);
    assert_eq!(h.channels(), 2);
    // 4 + (4*8*2 + 16*53 + 8 + 7) / 8
    assert_eq!(h.frame_size(), 119);
}

#[test]
fn reads_an_msbc_header() {
    let data = [0xadu8, 0x00, 0x00, 0x77];
    let h = SbcHeader::read(&data).unwrap();
    assert!(h.msbc);
    assert_eq!(h.freq, Frequency::Hz16k);
    assert_eq!(h.mode, ChannelMode::Mono);
    assert_eq!(h.bam, Bam::Loudness);
    assert_eq!(h.blocks, 15);
    assert_eq!(h.subbands, 8);
    assert_eq!(h.bitpool, 26);
    assert_eq!(h.crc, 0x77);
    assert_eq!(h.channels(), 1);
    assert_eq!(h.frame_size(), lib::SBC_MSBC_SIZE);
    assert_eq!((h.blocks * h.subbands) as usize, lib::SBC_MSBC_SAMPLES);
}

#[test]
fn reads_snr_and_four_subbands() {
    // 16 kHz, 4 blocks, mono, SNR, 4 subbands, bitpool 10.
    let data = [0x9cu8, 0x02, 10, 0];
    let h = SbcHeader::read(&data).unwrap();
    assert_eq!(h.freq, Frequency::Hz16k);
    assert_eq!(h.blocks, 4);
    assert_eq!(h.mode, ChannelMode::Mono);
    assert_eq!(h.bam, Bam::Snr);
    assert_eq!(h.subbands, 4);
    // 4 + (16 + 40 + 7) / 8
    assert_eq!(h.frame_size(), 11);
}

#[test]
fn refuses_a_short_header() {
    let data = [0x9cu8, 0xbd, 53];
    assert_eq!(SbcHeader::read(&data), Err(Error::NotEnoughData { expected: 4, actual: 3 }));
}

#[test]
fn refuses_a_bad_sync_word() {
    let data = [0x9du8, 0xbd, 53, 0];
    assert_eq!(SbcHeader::read(&data), Err(Error::BadData(Reason::InvalidSyncWord)));
}

#[test]
fn refuses_a_bitpool_too_large() {
    // 16 kHz, 4 blocks, mono, 4 subbands: at most 5 bits per block remain.
    let data = [0x9cu8, 0x00, 200, 0];
    assert_eq!(SbcHeader::read(&data), Err(Error::BadData(Reason::InvalidBitpoolValue)));
}

#[test]
fn mono_bitpool_limit_counts_the_bits_per_block() {
    // 16 kHz, 16 blocks, mono, loudness, 8 subbands: 2048 - 32 - 32 = 1984 bits for 16
    // blocks leave 124 per block, below the 128 of 16 bits per subband.
    let ok = [0x9cu8, 0x31, 124, 0];
    assert_eq!(SbcHeader::read(&ok).map(|h| h.bitpool), Ok(124));
    let too_large = [0x9cu8, 0x31, 125, 0];
    assert_eq!(SbcHeader::read(&too_large), Err(Error::BadData(Reason::InvalidBitpoolValue)));
}

#[test]
fn header_is_read_from_four_bytes_only() {
    let data = [0x9cu8, 0xbd, 53, 0x42, 1, 2, 3, 4, 5];
    assert_eq!(SbcHeader::read(&data), SbcHeader::read(&data[..4]));
}

#[test]
fn is_stereo_holds_of_stereo_modes_only() {
    assert!(!ChannelMode::Mono.is_stereo());
    assert!(!ChannelMode::DualChannel.is_stereo());
    assert!(ChannelMode::Stereo.is_stereo());
    assert!(ChannelMode::JointStereo.is_stereo());
}

/// CRC-8 with polynomial x^8 + x^4 + x^3 + x^2 + 1, from 0x0f, bit by bit.
fn crc8_bitwise(bits: &[u8]) -> u8 {
    let mut crc: u8 = 0x0f;
    for &b in bits {
        let top = (crc >> 7) ^ b;
        crc <<= 1;
        if top & 1 == 1 {
            crc ^= 0x1d;
        }
    }
    crc
}

fn bits_of(bytes: &[u8], nbits: usize) -> Vec<u8> {
    (0..nbits).map(|i| (bytes[i / 8] >> (7 - i % 8)) & 1).collect()
}

#[test]
fn crc_covers_header_and_scale_factors() {
    // Mono, 8 subbands: 32 bits of scale factors.
    let frame = [0x9cu8, 0xb1, 2, 0x00, 0x12, 0x34, 0x56, 0x78, 0x55, 0x55, 0x55, 0x55];
    let h = SbcHeader::read(&frame).unwrap();
    let mut covered = bits_of(&frame[1..3], 16);
    covered.extend(bits_of(&frame[4..8], 32));
    assert_eq!(compute_crc(&h, &frame), Ok(crc8_bitwise(&covered)));
}

#[test]
fn crc_covers_half_a_byte_of_joint_flags() {
    // Joint stereo, 4 subbands: 4 joint bits and 32 bits of scale factors: 36 bits,
    // of which the last 4 are covered by half a byte.
    let frame = [0x9cu8, 0x2c, 8, 0x00, 0xa1, 0xb2, 0xc3, 0xd4, 0xe5, 0, 0, 0, 0, 0, 0, 0];
    let h = SbcHeader::read(&frame).unwrap();
    let mut covered = bits_of(&frame[1..3], 16);
    covered.extend(bits_of(&frame[4..], 36));
    assert_eq!(compute_crc(&h, &frame), Ok(crc8_bitwise(&covered)));
}

#[test]
fn crc_skips_sync_word_and_crc_field() {
    let frame = [0x9cu8, 0xb1, 2, 0x00, 0x12, 0x34, 0x56, 0x78];
    let h = SbcHeader::read(&frame).unwrap();
    let mut other = frame;
    other[0] = 0xad;
    other[3] = 0xee;
    assert_eq!(compute_crc(&h, &frame), compute_crc(&h, &other));
}

#[test]
fn crc_needs_the_covered_bytes() {
    let frame = [0x9cu8, 0xb1, 2, 0x00, 0x12, 0x34];
    let h = SbcHeader::read(&frame).unwrap();
    assert_eq!(compute_crc(&h, &frame), Err(Error::NotEnoughData { expected: 8, actual: 6 }));
}
