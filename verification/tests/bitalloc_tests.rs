use lib::decoder::bitalloc::compute_nbits;
use lib::decoder::{Bam, ChannelMode, Frequency, SbcHeader};

fn header(mode: ChannelMode, bam: Bam, subbands: u32, bitpool: u32) -> SbcHeader {
    SbcHeader {
        msbc: false,
        freq: Frequency::Hz44k,
        mode,
        bam,
        blocks: 16,
        subbands,
        bitpool,
        crc: 0,
    }
}

/// The bits of the channels that share an allocation from channel `ch0`.
fn allocated(h: &SbcHeader, sf: &[[i32; 8]; 2], ch0: usize) -> (i32, [[i32; 8]; 2]) {
    let mut nbits = [[-1i32; 8]; 2];
    compute_nbits(h, sf, &mut nbits, ch0);
    let nch = if matches!(h.mode, ChannelMode::Stereo | ChannelMode::JointStereo) { 2 } else { 1 };
    let mut sum = 0;
    for ich in ch0..ch0 + nch {
        for isb in 0..h.subbands as usize {
            sum += nbits[ich][isb];
        }
    }
    (sum, nbits)
}

#[test]
fn allocation_spends_the_whole_bitpool() {
    let sf = [[3, 7, 0, 12, 15, 1, 9, 4], [5, 0, 11, 2, 8, 14, 6, 10]];
    for mode in [ChannelMode::Mono, ChannelMode::Stereo, ChannelMode::JointStereo] {
        for bam in [Bam::Snr, Bam::Loudness] {
            for subbands in [4u32, 8] {
                let nch = if matches!(mode, ChannelMode::Mono) { 1 } else { 2 };
                for bitpool in 0..=16 * nch * subbands {
                    let h = header(mode, bam, subbands, bitpool);
                    let (sum, _) = allocated(&h, &sf, 0);
                    assert_eq!(sum, bitpool as i32, "{:?} {:?} {} {}", mode, bam, subbands, bitpool);
                }
            }
        }
    }
}

#[test]
fn allocation_of_each_dual_channel_spends_the_whole_bitpool() {
    let sf = [[0, 0, 0, 0, 0, 0, 0, 0], [15, 15, 15, 15, 15, 15, 15, 15]];
    for bitpool in 0..=128u32 {
        let h = header(ChannelMode::DualChannel, Bam::Loudness, 8, bitpool);
        for ch0 in 0..2 {
            let (sum, nbits) = allocated(&h, &sf, ch0);
            assert_eq!(sum, bitpool as i32);
            // The other channel is left as it was.
            assert!(nbits[1 - ch0].iter().all(|&n| n == -1));
        }
    }
}

#[test]
fn allocation_with_equal_needs_shares_the_bitpool() {
    // Four subbands of equal need, 10 bits: the bit slice gives 2 to each, and the
    // two leftover bits go one each to the first two subbands.
    let sf = [[4, 4, 4, 4, 0, 0, 0, 0], [0; 8]];
    let h = header(ChannelMode::Mono, Bam::Snr, 4, 10);
    let (sum, nbits) = allocated(&h, &sf, 0);
    assert_eq!(sum, 10);
    assert_eq!(&nbits[0][..4], &[3, 3, 2, 2]);
}
