use lib::raw::{
    check_frame, sbc_decode, sbc_frame, sbc_get_frame_bitrate, sbc_get_frame_bps,
    sbc_get_frame_size, sbc_get_freq_hz, sbc_probe, sbc_reset, sbc, SBC_BAM_LOUDNESS,
    SBC_FREQ_16K, SBC_FREQ_44K1, SBC_FREQ_48K, SBC_MODE_DUAL_CHANNEL, SBC_MODE_JOINT_STEREO,
    SBC_MODE_MONO, SBC_MODE_STEREO,
};

fn frame(mode: u32, nblocks: i32, nsubbands: i32, bitpool: i32) -> sbc_frame {
    sbc_frame {
        msbc: false,
        freq: SBC_FREQ_44K1,
        mode,
        bam: SBC_BAM_LOUDNESS,
        nblocks,
        nsubbands,
        bitpool,
    }
}

#[test]
fn frequencies_in_hz() {
    assert_eq!(sbc_get_freq_hz(SBC_FREQ_16K), 16000);
    assert_eq!(sbc_get_freq_hz(SBC_FREQ_44K1), 44100);
    assert_eq!(sbc_get_freq_hz(SBC_FREQ_48K), 48000);
    assert_eq!(sbc_get_frame_bps(SBC_FREQ_48K), 48000);
}

#[test]
fn frame_size_of_high_quality_a2dp() {
    let f = frame(SBC_MODE_JOINT_STEREO, 16, 8, 53);
    assert!(check_frame(&f));
    assert_eq!(sbc_get_frame_size(&f), 119);
    // 8 * 119 bits for 128 samples at 44.1 kHz.
    assert_eq!(sbc_get_frame_bitrate(&f), 327993);
}

#[test]
fn frame_size_of_msbc() {
    let f = sbc_frame {
        msbc: true,
        freq: SBC_FREQ_16K,
        mode: SBC_MODE_MONO,
        bam: SBC_BAM_LOUDNESS,
        nblocks: 15,
        nsubbands: 8,
        bitpool: 26,
    };
    assert!(check_frame(&f));
    assert_eq!(sbc_get_frame_size(&f) as usize, lib::SBC_MSBC_SIZE);
}

#[test]
fn invalid_frames_have_no_size() {
    assert!(!check_frame(&frame(SBC_MODE_MONO, 15, 8, 10)));
    assert!(!check_frame(&frame(SBC_MODE_MONO, 20, 8, 10)));
    assert!(!check_frame(&frame(SBC_MODE_MONO, 16, 6, 10)));
    assert_eq!(sbc_get_frame_size(&frame(SBC_MODE_MONO, 16, 6, 10)), 0);
    assert_eq!(sbc_get_frame_bitrate(&frame(SBC_MODE_MONO, 16, 6, 10)), 0);
}

#[test]
fn bitpool_limit_per_mode() {
    // Mono, 16 blocks, 8 subbands: 124 bits per block are left.
    assert!(check_frame(&frame(SBC_MODE_MONO, 16, 8, 124)));
    assert!(!check_frame(&frame(SBC_MODE_MONO, 16, 8, 125)));
    // Stereo: at most 32 bits per subband.
    assert!(check_frame(&frame(SBC_MODE_STEREO, 16, 8, 250)));
    assert!(!check_frame(&frame(SBC_MODE_STEREO, 16, 8, 251)));
    // Dual channel: the bits of a block are shared by both channels.
    assert!(check_frame(&frame(SBC_MODE_DUAL_CHANNEL, 16, 8, 125)));
    assert!(!check_frame(&frame(SBC_MODE_DUAL_CHANNEL, 16, 8, 126)));
}

#[test]
fn probe_reads_the_header() {
    let data = [0x9cu8, 0xbd, 53, 0x42];
    let mut f = frame(0, 0, 0, 0);
    assert_eq!(sbc_probe(&data, &mut f), 0);
    assert_eq!(f.freq, SBC_FREQ_44K1);
    assert_eq!(f.mode, SBC_MODE_JOINT_STEREO);
    assert_eq!(f.nblocks, 16);
    assert_eq!(f.nsubbands, 8);
    assert_eq!(f.bitpool, 53);
    assert!(!f.msbc);
}

#[test]
fn probe_refuses_a_bad_sync_word() {
    let data = [0x12u8, 0xbd, 53, 0x42];
    let mut f = frame(SBC_MODE_STEREO, 8, 4, 7);
    assert_eq!(sbc_probe(&data, &mut f), -1);
    assert_eq!(f.mode, SBC_MODE_STEREO);
    assert_eq!(f.bitpool, 7);
}

fn silent_mono_frame() -> Vec<u8> {
    let mut data = vec![0x9cu8, 0xb1, 2, 0, 0, 0, 0, 0, 0x55, 0x55, 0x55, 0x55];
    let h = lib::decoder::SbcHeader::read(&data).unwrap();
    data[3] = lib::decoder::crc::compute_crc(&h, &data).unwrap();
    data
}

#[test]
fn decode_and_conceal() {
    let data = silent_mono_frame();
    let mut state = sbc::new();
    let mut f = frame(0, 0, 0, 0);
    let mut pcm = vec![9i16; 256];
    assert_eq!(sbc_decode(&mut state, Some(&data), &mut f, &mut pcm, 0, 2, 1, 2), 0);
    assert_eq!(state.nchannels, 1);
    assert_eq!(state.nblocks, 16);
    assert_eq!(state.nsubbands, 8);
    for k in 0..128 {
        assert_eq!(pcm[2 * k], 0);
        assert_eq!(pcm[2 * k + 1], 9);
    }
    // A lost frame: the last parameters, synthesized from silence.
    let mut pcm2 = vec![9i16; 128];
    assert_eq!(sbc_decode(&mut state, None, &mut f, &mut pcm2, 0, 1, 0, 1), 0);
    assert!(pcm2.iter().all(|&s| s == 0));
    sbc_reset(&mut state);
    assert_eq!(state.nblocks, 0);
}

#[test]
fn decode_refuses_a_bad_crc() {
    let mut data = silent_mono_frame();
    data[3] ^= 0x80;
    let mut state = sbc::new();
    let mut f = frame(0, 0, 0, 0);
    let mut pcm = vec![9i16; 128];
    assert_eq!(sbc_decode(&mut state, Some(&data), &mut f, &mut pcm, 0, 1, 0, 1), -1);
    assert!(pcm.iter().all(|&s| s == 9));
    assert_eq!(state.nblocks, 0);
}

#[test]
fn decode_ignores_padding() {
    // Joint stereo, 4 subbands, 4 blocks, bitpool 2: 4 bits of padding.
    let mut data = vec![0x9cu8, 0x0c, 2, 0];
    let h = lib::decoder::SbcHeader::read(&data).unwrap();
    while data.len() < h.frame_size() {
        data.push(0);
    }
    let last = data.len() - 1;
    data[last] = 1;
    data[3] = lib::decoder::crc::compute_crc(&h, &data).unwrap();
    let mut state = sbc::new();
    let mut f = frame(0, 0, 0, 0);
    let mut pcm = vec![0i16; 32];
    assert_eq!(sbc_decode(&mut state, Some(&data), &mut f, &mut pcm, 0, 2, 1, 2), 0);
}
