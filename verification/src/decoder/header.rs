use vstd::arithmetic::power2::*;
use vstd::bits::*;
use vstd::prelude::*;

use crate::bits::{bits_value, lemma_bits_in_byte, lemma_bits_value_byte, Bits, Mode};
use crate::decoder::{
    spec_max_bitpool, Bam, ChannelMode, Error, Frequency, Reason, SbcHeader, HEADER_SIZE,
};

verus! {

/// The header that four header bytes describe, before any check: the mSBC header for the
/// sync word `0xad`, else the fields of bytes 1 and 2; the CRC is byte 3.
pub open spec fn spec_header_fields(d: Seq<u8>) -> SbcHeader {
    if d[0] == 0xad {
        SbcHeader { crc: d[3], ..SbcHeader::spec_msbc() }
    } else {
        SbcHeader {
            msbc: false,
            freq: Frequency::from_code(((d[1] >> 6u8) & 3u8) as nat),
            blocks: (4 * (1 + ((d[1] >> 4u8) & 3u8))) as u32,
            mode: ChannelMode::from_code(((d[1] >> 2u8) & 3u8) as nat),
            bam: if (d[1] >> 1u8) & 1u8 == 0 {
                Bam::Loudness
            } else {
                Bam::Snr
            },
            subbands: (4 * (1 + (d[1] & 1u8))) as u32,
            bitpool: d[2] as u32,
            crc: d[3],
        }
    }
}

/// The checks of a decoded header, in the order the decoder makes them.
pub open spec fn spec_check_header(h: SbcHeader) -> Result<SbcHeader, Error> {
    if !(4 <= h.blocks <= 16 && (h.msbc || h.blocks % 4 == 0)) {
        Err(Error::BadData(Reason::InvalidBlockLength))
    } else if !(4 <= h.subbands <= 8 && h.subbands % 4 == 0) {
        Err(Error::BadData(Reason::InvalidSubbands))
    } else if h.bitpool > spec_max_bitpool(h) {
        Err(Error::BadData(Reason::InvalidBitpoolValue))
    } else {
        Ok(h)
    }
}

/// The result of reading a frame header from the start of `d`.
pub open spec fn spec_read_header(d: Seq<u8>) -> Result<SbcHeader, Error> {
    if d.len() < 4 {
        Err(Error::NotEnoughData { expected: 4, actual: d.len() as usize })
    } else if d[0] != 0xad && d[0] != 0x9c {
        Err(Error::BadData(Reason::InvalidSyncWord))
    } else {
        spec_check_header(spec_header_fields(d))
    }
}

/// A header is read from the first four bytes alone: what follows them changes nothing.
pub proof fn lemma_read_header_prefix(d: Seq<u8>)
    requires
        d.len() >= 4,
    ensures
        spec_read_header(d) == spec_read_header(d.take(4)),
{
}

/// The fields of the four header bytes, as the bit reader sees them.
pub proof fn lemma_header_bits(d: Seq<u8>)
    requires
        d.len() == 4,
    ensures
        bits_value(d, 0, 8) == d[0] as nat,
        bits_value(d, 8, 2) == ((d[1] >> 6u8) & 3u8) as nat,
        bits_value(d, 10, 2) == ((d[1] >> 4u8) & 3u8) as nat,
        bits_value(d, 12, 2) == ((d[1] >> 2u8) & 3u8) as nat,
        bits_value(d, 14, 1) == ((d[1] >> 1u8) & 1u8) as nat,
        bits_value(d, 15, 1) == (d[1] & 1u8) as nat,
        bits_value(d, 16, 8) == d[2] as nat,
        bits_value(d, 24, 8) == d[3] as nat,
        (d[1] >> 4u8) & 3u8 <= 3,
        (d[1] >> 2u8) & 3u8 <= 3,
        d[1] & 1u8 <= 1,
{
    lemma2_to64();
    let x = d[1];
    lemma_bits_value_byte(d, 0);
    lemma_bits_value_byte(d, 2);
    lemma_bits_value_byte(d, 3);
    lemma_bits_in_byte(d, 1, 0, 2);
    lemma_bits_in_byte(d, 1, 2, 2);
    lemma_bits_in_byte(d, 1, 4, 2);
    lemma_bits_in_byte(d, 1, 6, 1);
    lemma_bits_in_byte(d, 1, 7, 1);
    assert((x as nat) % 256 == x as nat);
    assert({
        &&& x / 64 == (x >> 6u8) & 3u8
        &&& (x % 64) / 16 == (x >> 4u8) & 3u8
        &&& (x % 16) / 4 == (x >> 2u8) & 3u8
        &&& (x % 4) / 2 == (x >> 1u8) & 1u8
        &&& (x % 2) / 1 == x & 1u8
        &&& (x >> 6u8) & 3u8 <= 3
        &&& (x >> 4u8) & 3u8 <= 3
        &&& (x >> 2u8) & 3u8 <= 3
        &&& (x >> 1u8) & 1u8 <= 1
        &&& x & 1u8 <= 1
    }) by (bit_vector);
}

/// Shifting by zero or one bit.
proof fn lemma_shl01(x: u32, s: u32)
    requires
        s <= 1,
        x <= 0x7fff_ffff,
    ensures
        (x << s) as int == if s == 1 {
            2 * x
        } else {
            x as int
        },
{
    if s == 1 {
        assert(x <= 0x7fff_ffff ==> x << 1u32 == 2 * x) by (bit_vector);
    } else {
        assert(x << 0u32 == x) by (bit_vector);
    }
}

impl SbcHeader {
    /// The header values of a frame in the mSBC format.
    fn new_msbc() -> (r: Self)
        ensures
            r == SbcHeader::spec_msbc(),
    {
        Self {
            msbc: true,
            freq: Frequency::Hz16k,
            mode: ChannelMode::Mono,
            bam: Bam::Loudness,
            blocks: 15,
            subbands: 8,
            bitpool: 26,
            crc: 0,
        }
    }

    /// Reads and checks the frame header at the start of `data`.
    pub fn read(data: &[u8]) -> (r: Result<Self, Error>)
        ensures
            r == spec_read_header(data@),
            r is Ok ==> r->Ok_0.is_valid(),
    {
        if data.len() < HEADER_SIZE {
            return Err(Error::NotEnoughData { expected: HEADER_SIZE, actual: data.len() });
        }
        let head = &data[0..HEADER_SIZE];
        let ghost d = head@;
        proof {
            lemma_header_bits(d);
            lemma2_to64();
        }
        let mut bits = Bits::new(Mode::Read, head);

        /* --- Decode header ---
         *
         * Two possible headers :
         * - Header, with syncword 0x9c (A2DP)
         * - mSBC header, with syncword 0xad (HFP) */

        let syncword = bits.get_bits(8);
        let msbc = syncword == 0xad;
        let mut frame = if msbc {
            bits.advance(16);
            Self::new_msbc()
        } else if syncword == 0x9c {
            let f = bits.get_bits(2);
            let freq = if f == 0 {
                Frequency::Hz16k
            } else if f == 1 {
                Frequency::Hz32k
            } else if f == 2 {
                Frequency::Hz44k
            } else {
                Frequency::Hz48k
            };
            let b = 1 + bits.get_bits(2);
            proof {
                lemma_u32_shl_is_mul(b, 2);
            }
            let blocks = b << 2;
            let m = bits.get_bits(2);
            let mode = if m == 0 {
                ChannelMode::Mono
            } else if m == 1 {
                ChannelMode::DualChannel
            } else if m == 2 {
                ChannelMode::Stereo
            } else {
                ChannelMode::JointStereo
            };
            let a = bits.get_bits(1);
            let bam = if a == 0 {
                Bam::Loudness
            } else {
                Bam::Snr
            };
            let s = 1 + bits.get_bits(1);
            proof {
                lemma_u32_shl_is_mul(s, 2);
            }
            let subbands = s << 2;
            let bitpool = bits.get_bits(8);

            Self { msbc, freq, mode, bam, blocks, subbands, bitpool, crc: 0 }
        } else {
            return Err(Error::BadData(Reason::InvalidSyncWord));
        };
        let c = bits.get_bits(8);
        frame.crc = c as u8;
        assert(frame == spec_header_fields(data@));

        /* --- Check bitpool value and return --- */
        if !(frame.blocks - 4 <= 12 && (frame.msbc || frame.blocks % 4 == 0)) {
            return Err(Error::BadData(Reason::InvalidBlockLength));
        }
        if !(frame.subbands - 4 <= 4 && frame.subbands % 4 == 0) {
            return Err(Error::BadData(Reason::InvalidSubbands));
        }
        let two_channels: u32 = if frame.mode != ChannelMode::Mono {
            1
        } else {
            0
        };
        let dual_mode: u32 = if frame.mode == ChannelMode::DualChannel {
            1
        } else {
            0
        };
        let joint_mode: bool = frame.mode == ChannelMode::JointStereo;
        let stereo_mode: u32 = if joint_mode || frame.mode == ChannelMode::Stereo {
            1
        } else {
            0
        };
        assert(256 <= 16 * frame.subbands * frame.blocks <= 2048) by (nonlinear_arith)
            requires
                4 <= frame.subbands <= 8,
                4 <= frame.blocks <= 16,
        ;
        let all_bits = 16 * frame.subbands * frame.blocks;
        let scf_bits = 4 * frame.subbands;
        proof {
            lemma_shl01(all_bits, two_channels);
            lemma_shl01(scf_bits, two_channels);
            lemma_shl01(frame.blocks, dual_mode);
            lemma_shl01(16, stereo_mode);
        }
        let max_bits = (all_bits << two_channels) - 4 * 8 - (scf_bits << two_channels) - if joint_mode {
            frame.subbands
        } else {
            0
        };
        let per_block = max_bits / (frame.blocks << dual_mode);
        let max_subband_bits = (16 << stereo_mode) * frame.subbands;
        let max_bitpool = if per_block < max_subband_bits {
            per_block
        } else {
            max_subband_bits
        };
        assert(max_bitpool == spec_max_bitpool(frame));
        if !(frame.bitpool <= max_bitpool) {
            return Err(Error::BadData(Reason::InvalidBitpoolValue));
        }
        Ok(frame)
    }

    /// Number of bytes of a frame of this header.
    pub fn frame_size(&self) -> (r: usize)
        requires
            self.frame_size_fits(),
        ensures
            r == self.spec_frame_size(),
    {
        let two_channels: u32 = if self.mode != ChannelMode::Mono {
            1
        } else {
            0
        };
        let dual_mode: u32 = if self.mode == ChannelMode::DualChannel {
            1
        } else {
            0
        };
        let joint_mode: bool = self.mode == ChannelMode::JointStereo;
        let scf_bits = 4 * self.subbands;
        let sample_bits = self.blocks * self.bitpool;
        proof {
            lemma_shl01(scf_bits, two_channels);
            lemma_shl01(sample_bits, dual_mode);
        }
        let nbits = (scf_bits << two_channels) + (sample_bits << dual_mode) + if joint_mode {
            self.subbands
        } else {
            0
        };
        let padded = nbits + 7;
        proof {
            lemma_u32_shr_is_div(padded, 3);
            lemma2_to64();
        }
        (4 + (padded >> 3)) as usize
    }

    /// Number of channels of a frame of this header.
    pub fn channels(&self) -> (r: u32)
        ensures
            r == self.spec_channels(),
    {
        match self.mode {
            ChannelMode::Mono => 1,
            _ => 2,
        }
    }
}

} // verus!
