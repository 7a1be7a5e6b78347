//! The frame interface of the codec: frames described by plain integers, a decoder state
//! that also conceals lost frames, and the encoder.
#![allow(non_camel_case_types)]

use vstd::arithmetic::power2::lemma2_to64;
use vstd::prelude::*;

pub mod analysis;
pub mod encode;

use crate::bits::{Bits, Mode};
use crate::raw::analysis::sbc_estate;

use crate::decoder::crc::{compute_crc, spec_crc_nbit, spec_frame_crc};
use crate::decoder::header::lemma_header_bits;
use crate::decoder::synthesize::{spec_history, spec_synth, spec_synth_out, synthesize, DecoderState};
use crate::decoder::{
    decode_payload, lemma_decoded_unfold, lemma_synth_blocks_whole, lemma_view_write,
    spec_decoded_history, spec_decoded_sample, spec_max_bitpool, spec_view_write, view_holds, Bam,
    BufferView, ChannelMode, Frequency, SbcHeader,
};

verus! {

/// Sampling frequency 16 kHz.
pub const SBC_FREQ_16K: u32 = 0;

/// Sampling frequency 32 kHz.
pub const SBC_FREQ_32K: u32 = 1;

/// Sampling frequency 44.1 kHz.
pub const SBC_FREQ_44K1: u32 = 2;

/// Sampling frequency 48 kHz.
pub const SBC_FREQ_48K: u32 = 3;

/// Channel mode mono.
pub const SBC_MODE_MONO: u32 = 0;

/// Channel mode dual channel.
pub const SBC_MODE_DUAL_CHANNEL: u32 = 1;

/// Channel mode stereo.
pub const SBC_MODE_STEREO: u32 = 2;

/// Channel mode joint stereo.
pub const SBC_MODE_JOINT_STEREO: u32 = 3;

/// Bit allocation by loudness.
pub const SBC_BAM_LOUDNESS: u32 = 0;

/// Bit allocation by signal to noise ratio.
pub const SBC_BAM_SNR: u32 = 1;

/// The parameters of a frame.
#[derive(Debug, Copy, Clone)]
pub struct sbc_frame {
    pub msbc: bool,
    pub freq: u32,
    pub mode: u32,
    pub bam: u32,
    pub nblocks: i32,
    pub nsubbands: i32,
    pub bitpool: i32,
}

/// The largest bitpool of a frame: what its blocks can carry, at most 16 bits per
/// subband and channel.
pub open spec fn spec_raw_max_bitpool(f: sbc_frame) -> int {
    let two: int = if f.mode != SBC_MODE_MONO { 2 } else { 1 };
    let dual: int = if f.mode == SBC_MODE_DUAL_CHANNEL { 2 } else { 1 };
    let joint = f.mode == SBC_MODE_JOINT_STEREO;
    let stereo: int = if joint || f.mode == SBC_MODE_STEREO { 2 } else { 1 };
    let max_bits = (16 * f.nsubbands * f.nblocks) * two - 4 * 8 - (4 * f.nsubbands) * two - (
    if joint {
        f.nsubbands as int
    } else {
        0
    });
    let per_block = max_bits / (f.nblocks * dual);
    if per_block < 16 * stereo * f.nsubbands {
        per_block
    } else {
        16 * stereo * f.nsubbands
    }
}

/// Whether a frame's parameters are valid: 4 to 16 blocks, a multiple of 4 but for
/// mSBC, 4 or 8 subbands, and a bitpool within the limit.
pub open spec fn spec_raw_check_frame(f: sbc_frame) -> bool {
    &&& 4 <= f.nblocks <= 16
    &&& (f.msbc || f.nblocks % 4 == 0)
    &&& (f.nsubbands == 4 || f.nsubbands == 8)
    &&& f.bitpool <= spec_raw_max_bitpool(f)
}

/// Checks the parameters of a frame.
pub fn check_frame(frame: &sbc_frame) -> (r: bool)
    ensures
        r == spec_raw_check_frame(*frame),
{
    if !(4 <= frame.nblocks && frame.nblocks <= 16) || !frame.msbc && frame.nblocks % 4 != 0 {
        return false;
    }
    if !(4 <= frame.nsubbands && frame.nsubbands <= 8) || frame.nsubbands % 4 != 0 {
        return false;
    }
    let two_channels: i32 = if frame.mode != SBC_MODE_MONO { 2 } else { 1 };
    let dual_mode: i32 = if frame.mode == SBC_MODE_DUAL_CHANNEL { 2 } else { 1 };
    let joint_mode: bool = frame.mode == SBC_MODE_JOINT_STEREO;
    let stereo_mode: i32 = if joint_mode || frame.mode == SBC_MODE_STEREO { 2 } else { 1 };
    let nsb = frame.nsubbands;
    let nblk = frame.nblocks;
    assert(16 * nsb * nblk <= 2048 && (16 * nsb * nblk) * two_channels - 32 - (4 * nsb)
        * two_channels - nsb >= 16 && nblk * dual_mode >= 4 && 16 * stereo_mode * nsb <= 256)
        by (nonlinear_arith)
        requires
            4 <= nsb <= 8,
            4 <= nblk <= 16,
            1 <= two_channels <= 2,
            1 <= dual_mode <= 2,
            1 <= stereo_mode <= 2,
    ;
    let max_bits: i32 = (16 * nsb * nblk) * two_channels - 4 * 8 - (4 * nsb) * two_channels
        - if joint_mode {
        nsb
    } else {
        0
    };
    let max_bitpool: i32 = if max_bits / (nblk * dual_mode) < 16 * stereo_mode * nsb {
        max_bits / (nblk * dual_mode)
    } else {
        16 * stereo_mode * nsb
    };
    frame.bitpool <= max_bitpool
}

/// The sampling frequencies in Hz, by code.
pub const FREQ_HZ: [i32; 4] = [16000, 32000, 44100, 48000];

/// The sampling frequency in Hz of a frequency code.
pub fn sbc_get_freq_hz(freq: u32) -> (r: i32)
    requires
        freq < 4,
    ensures
        r == FREQ_HZ[freq as int],
{
    FREQ_HZ[freq as usize]
}

/// The number of bits after the header of a frame, as a 32-bit count.
pub open spec fn spec_raw_payload_bits(f: sbc_frame) -> u32 {
    let two: int = if f.mode != SBC_MODE_MONO { 2 } else { 1 };
    let dual: int = if f.mode == SBC_MODE_DUAL_CHANNEL { 2 } else { 1 };
    let joint: int = if f.mode == SBC_MODE_JOINT_STEREO { f.nsubbands as int } else { 0 };
    ((4 * f.nsubbands) * two + (f.nblocks * f.bitpool) * dual + joint) as u32
}

/// The size in bytes of a valid frame, zero for an invalid one.
pub open spec fn spec_raw_frame_size(f: sbc_frame) -> u32 {
    if spec_raw_check_frame(f) {
        4u32.wrapping_add(spec_raw_payload_bits(f).wrapping_add(7) >> 3u32)
    } else {
        0
    }
}

/// Whether the bit count of a frame fits in 32 bits.
pub open spec fn bitpool_countable(f: sbc_frame) -> bool {
    f.bitpool >= -0x400_0000
}

/// The size in bytes of a frame, or zero when its parameters are invalid.
pub fn sbc_get_frame_size(frame: &sbc_frame) -> (r: u32)
    requires
        bitpool_countable(*frame),
    ensures
        r == spec_raw_frame_size(*frame),
{
    if !check_frame(frame) {
        return 0;
    }
    let two_channels: i32 = if frame.mode != SBC_MODE_MONO { 2 } else { 1 };
    let dual_mode: i32 = if frame.mode == SBC_MODE_DUAL_CHANNEL { 2 } else { 1 };
    let joint_mode: bool = frame.mode == SBC_MODE_JOINT_STEREO;
    let nsb = frame.nsubbands;
    let nblk = frame.nblocks;
    let bitpool = frame.bitpool;
    let ghost stereo: int = if joint_mode || frame.mode == SBC_MODE_STEREO { 2 } else { 1 };
    assert(16 * stereo * nsb <= 256) by (nonlinear_arith)
        requires
            0 <= nsb <= 8,
            0 <= stereo <= 2,
    ;
    assert(bitpool <= 256);
    assert(-0x4000_0000 <= nblk * bitpool <= 0x1000 && -0x8000_0000 <= (nblk * bitpool)
        * dual_mode <= 0x2000) by (nonlinear_arith)
        requires
            4 <= nblk <= 16,
            -0x400_0000 <= bitpool <= 256,
            1 <= dual_mode <= 2,
    ;
    let nbits: i32 = (4 * nsb) * two_channels + (nblk * bitpool) * dual_mode + if joint_mode {
        nsb
    } else {
        0
    };
    4u32.wrapping_add((#[verifier::truncate] (nbits as u32)).wrapping_add(7) >> 3u32)
}

/// The bit rate of a frame in bits per second, or zero when its parameters are invalid.
pub fn sbc_get_frame_bitrate(frame: &sbc_frame) -> (r: u32)
    requires
        bitpool_countable(*frame),
        spec_raw_check_frame(*frame) ==> frame.freq < 4,
    ensures
        r == if spec_raw_check_frame(*frame) {
            (8u32.wrapping_mul(spec_raw_frame_size(*frame))).wrapping_mul(
                FREQ_HZ[frame.freq as int] as u32,
            ) / ((frame.nblocks * frame.nsubbands) as u32)
        } else {
            0
        },
{
    if !check_frame(frame) {
        return 0;
    }
    assert(16 <= frame.nblocks * frame.nsubbands <= 128) by (nonlinear_arith)
        requires
            4 <= frame.nblocks <= 16,
            4 <= frame.nsubbands <= 8,
    ;
    let nsamples = (frame.nblocks * frame.nsubbands) as u32;
    let nbits = 8u32.wrapping_mul(sbc_get_frame_size(frame));
    nbits.wrapping_mul(sbc_get_freq_hz(frame.freq) as u32) / nsamples
}

/// The sampling frequency in Hz of a frequency code.
pub fn sbc_get_frame_bps(freq: u32) -> (r: i32)
    requires
        freq < 4,
    ensures
        r == FREQ_HZ[freq as int],
{
    FREQ_HZ[freq as usize]
}

/// The parameters of an mSBC frame.
pub open spec fn spec_msbc_frame() -> sbc_frame {
    sbc_frame {
        msbc: true,
        freq: SBC_FREQ_16K,
        mode: SBC_MODE_MONO,
        bam: SBC_BAM_LOUDNESS,
        nblocks: 15,
        nsubbands: 8,
        bitpool: 26,
    }
}

/// Whether the first byte of `d` is a sync word: `0xad` for mSBC, `0x9c` otherwise.
pub open spec fn spec_sync_ok(d: Seq<u8>) -> bool {
    d[0] == 0xad || d[0] == 0x9c
}

/// The parameters that the header bytes `d` describe: the mSBC parameters for the
/// sync word `0xad`, else the fields of bytes 1 and 2.
pub open spec fn spec_raw_header_fields(d: Seq<u8>) -> sbc_frame {
    if d[0] == 0xad {
        spec_msbc_frame()
    } else {
        sbc_frame {
            msbc: false,
            freq: ((d[1] >> 6u8) & 3u8) as u32,
            mode: ((d[1] >> 2u8) & 3u8) as u32,
            bam: ((d[1] >> 1u8) & 1u8) as u32,
            nblocks: (4 * (1 + ((d[1] >> 4u8) & 3u8))) as i32,
            nsubbands: (4 * (1 + (d[1] & 1u8))) as i32,
            bitpool: d[2] as i32,
        }
    }
}

/// The parameters of a frame after its header `d` was decoded into `f`: those of the
/// header after a sync word, else `f` with the mSBC flag cleared.
pub open spec fn spec_decoded_frame(f: sbc_frame, d: Seq<u8>) -> sbc_frame {
    if spec_sync_ok(d) {
        spec_raw_header_fields(d)
    } else {
        sbc_frame { msbc: false, ..f }
    }
}

/// The mSBC parameters.
pub(crate) fn msbc_frame() -> (r: sbc_frame)
    ensures
        r == spec_msbc_frame(),
{
    sbc_frame {
        msbc: true,
        freq: SBC_FREQ_16K,
        mode: SBC_MODE_MONO,
        bam: SBC_BAM_LOUDNESS,
        nblocks: 15,
        nsubbands: 8,
        bitpool: 26,
    }
}

/// Decodes the four header bytes held by `bits` into `frame`, and the CRC field into
/// `crc` when one is given. Whether the header has a sync word and valid parameters.
pub fn decode_header(bits: &mut Bits, frame: &mut sbc_frame, crc: Option<&mut i32>) -> (r: bool)
    requires
        old(bits).wf(),
        old(bits).mode() == Mode::Read,
        old(bits).bytes().len() == 4,
        old(bits).position() == 0,
    ensures
        final(bits).wf(),
        final(bits).mode() == Mode::Read,
        final(bits).error() == old(bits).error(),
        *final(frame) == spec_decoded_frame(*old(frame), old(bits).bytes()),
        r == (spec_sync_ok(old(bits).bytes()) && spec_raw_check_frame(*final(frame))),
        spec_sync_ok(old(bits).bytes()) ==> codes_in_range(*final(frame)) && final(frame).bitpool
            >= 0,
        match crc {
            Some(c) => spec_sync_ok(old(bits).bytes()) ==> *final(c) == old(bits).bytes()[3],
            None => true,
        },
{
    let ghost d = bits.bytes();
    proof {
        lemma_header_bits(d);
        lemma2_to64();
        crate::bits::lemma_bits_value_bound(d, 8, 2);
        crate::bits::lemma_bits_value_bound(d, 12, 2);
        crate::bits::lemma_bits_value_bound(d, 14, 1);
    }
    let syncword = bits.get_bits(8);
    frame.msbc = syncword == 0xad;
    if frame.msbc {
        bits.advance(16);
        *frame = msbc_frame();
    } else if syncword == 0x9c {
        frame.freq = bits.get_bits(2);
        let b = 1 + bits.get_bits(2);
        proof {
            vstd::bits::lemma_u32_shl_is_mul(b, 2);
        }
        frame.nblocks = (b << 2) as i32;
        frame.mode = bits.get_bits(2);
        frame.bam = bits.get_bits(1);
        let s = 1 + bits.get_bits(1);
        proof {
            vstd::bits::lemma_u32_shl_is_mul(s, 2);
        }
        frame.nsubbands = (s << 2) as i32;
        frame.bitpool = bits.get_bits(8) as i32;
    } else {
        return false;
    }
    match crc {
        Some(c) => {
            *c = bits.get_bits(8) as i32;
        },
        None => {},
    }
    assert(*frame == spec_raw_header_fields(d));
    check_frame(frame)
}

/// Reads the parameters of the frame whose header starts `data`: 0 when it has a sync
/// word and valid parameters, -1 otherwise.
pub fn sbc_probe(data: &[u8], frame: &mut sbc_frame) -> (r: i32)
    requires
        data.len() >= 4,
    ensures
        *final(frame) == spec_decoded_frame(*old(frame), data@.take(4)),
        spec_sync_ok(data@) ==> codes_in_range(*final(frame)) && final(frame).bitpool >= 0,
        r == if spec_sync_ok(data@) && spec_raw_check_frame(*final(frame)) {
            0i32
        } else {
            -1i32
        },
{
    let mut bits = Bits::new(Mode::Read, &data[0..4]);
    if !decode_header(&mut bits, frame, None) || bits.has_error() {
        -1
    } else {
        0
    }
}

/// Whether the codes of a frame's frequency, mode and allocation method are defined.
pub open spec fn codes_in_range(f: sbc_frame) -> bool {
    &&& f.freq < 4
    &&& f.mode < 4
    &&& f.bam < 2
}

/// The header of a frame of parameters `f`.
pub open spec fn spec_header_of(f: sbc_frame) -> SbcHeader {
    SbcHeader {
        msbc: f.msbc,
        freq: Frequency::from_code(f.freq as nat),
        mode: ChannelMode::from_code(f.mode as nat),
        bam: if f.bam == SBC_BAM_LOUDNESS {
            Bam::Loudness
        } else {
            Bam::Snr
        },
        blocks: f.nblocks as u32,
        subbands: f.nsubbands as u32,
        bitpool: f.bitpool as u32,
        crc: 0,
    }
}

/// The header of a frame of parameters `frame`.
pub(crate) fn header_of(frame: &sbc_frame) -> (r: SbcHeader)
    requires
        codes_in_range(*frame),
        spec_raw_check_frame(*frame),
        frame.bitpool >= 0,
    ensures
        r == spec_header_of(*frame),
{
    let freq = if frame.freq == 0 {
        Frequency::Hz16k
    } else if frame.freq == 1 {
        Frequency::Hz32k
    } else if frame.freq == 2 {
        Frequency::Hz44k
    } else {
        Frequency::Hz48k
    };
    let mode = if frame.mode == 0 {
        ChannelMode::Mono
    } else if frame.mode == 1 {
        ChannelMode::DualChannel
    } else if frame.mode == 2 {
        ChannelMode::Stereo
    } else {
        ChannelMode::JointStereo
    };
    let bam = if frame.bam == SBC_BAM_LOUDNESS {
        Bam::Loudness
    } else {
        Bam::Snr
    };
    SbcHeader {
        msbc: frame.msbc,
        freq,
        mode,
        bam,
        blocks: frame.nblocks as u32,
        subbands: frame.nsubbands as u32,
        bitpool: frame.bitpool as u32,
        crc: 0,
    }
}

/// A frame valid here has a header that the frame decoder accepts, of the same size:
/// its bitpool limit is never below this one.
pub proof fn lemma_raw_frame_valid(f: sbc_frame)
    requires
        codes_in_range(f),
        spec_raw_check_frame(f),
        f.bitpool >= 0,
    ensures
        spec_header_of(f).is_valid(),
        spec_header_of(f).spec_frame_size() == spec_raw_frame_size(f),
        spec_header_of(f).spec_channels() == if f.mode != SBC_MODE_MONO { 2int } else { 1int },
        spec_raw_frame_size(f) <= 0x2004,
        spec_raw_frame_size(f) == 4 + (spec_raw_payload_bits(f) + 7) / 8,
        spec_raw_payload_bits(f) == (4 * f.nsubbands) * (if f.mode != SBC_MODE_MONO {
            2int
        } else {
            1int
        }) + (f.nblocks * f.bitpool) * (if f.mode == SBC_MODE_DUAL_CHANNEL {
            2int
        } else {
            1int
        }) + (if f.mode == SBC_MODE_JOINT_STEREO {
            f.nsubbands as int
        } else {
            0
        }),
{
    let h = spec_header_of(f);
    assert(spec_max_bitpool(h) == spec_raw_max_bitpool(f));
    assert(h.bitpool <= spec_max_bitpool(h));
    let st: int = if f.mode == SBC_MODE_JOINT_STEREO || f.mode == SBC_MODE_STEREO { 2 } else { 1 };
    assert(16 * st * f.nsubbands <= 256) by (nonlinear_arith)
        requires
            0 <= f.nsubbands <= 8,
            1 <= st <= 2,
    ;
    assert(f.bitpool <= 256);
    let bits = h.spec_payload_bits();
    assert(0 <= bits < 0x1_0000) by (nonlinear_arith)
        requires
            bits == (4 * h.subbands) * (if h.mode != ChannelMode::Mono { 2int } else { 1int }) + (
            h.blocks * h.bitpool) * (if h.mode == ChannelMode::DualChannel {
                2int
            } else {
                1int
            }) + (if h.mode == ChannelMode::JointStereo {
                h.subbands as int
            } else {
                0
            }),
            h.subbands <= 8,
            h.blocks <= 16,
            h.bitpool <= 256,
    ;
    let pb = spec_raw_payload_bits(f);
    assert(pb == bits);
    let q = pb.wrapping_add(7);
    assert(q == bits + 7);
    vstd::bits::lemma_u32_shr_is_div(q, 3);
    lemma2_to64();
    assert(spec_raw_frame_size(f) == 4 + (bits + 7) / 8);
}

/// The state of a codec: the parameters of the last frame decoded, the
/// synthesis state of each channel, and the analysis state of each channel for encoding.
pub struct sbc {
    pub nchannels: i32,
    pub nblocks: i32,
    pub nsubbands: i32,
    pub dstates: [DecoderState; 2],
    pub estates: [sbc_estate; 2],
}

/// The state of a codec, under its other name.
pub type sbc_t = sbc;

impl sbc {
    /// Whether the synthesis states are at a position of their history, and the last
    /// frame's parameters are none or valid ones.
    pub open spec fn wf(&self) -> bool {
        &&& self.dstates[0].index < 10
        &&& self.dstates[1].index < 10
        &&& self.estates[0].wf()
        &&& self.estates[1].wf()
        &&& self.nblocks == 0 || (4 <= self.nblocks <= 16 && (self.nsubbands == 4
            || self.nsubbands == 8))
    }

    /// The position and history of the synthesis of channel `c`.
    pub open spec fn history(&self, c: int) -> (int, Seq<Seq<Seq<i16>>>) {
        (self.dstates[c].index as int, spec_history(self.dstates[c].v))
    }

    /// A state that has decoded nothing.
    pub fn new() -> (r: Self)
        ensures
            r.wf(),
            r.nchannels == 0,
            r.nblocks == 0,
            r.nsubbands == 0,
            r.history(0) == crate::decoder::Decoder::initial_history(),
            r.history(1) == crate::decoder::Decoder::initial_history(),
            r.estates[0].is_initial(),
            r.estates[1].is_initial(),
    {
        let r = sbc {
            nchannels: 0,
            nblocks: 0,
            nsubbands: 0,
            dstates: [DecoderState::new(), DecoderState::new()],
            estates: [sbc_estate::new(), sbc_estate::new()],
        };
        proof {
            assert(spec_history(r.dstates[0].v) =~~= crate::decoder::Decoder::initial_history().1);
            assert(spec_history(r.dstates[1].v) =~~= crate::decoder::Decoder::initial_history().1);
        }
        r
    }
}

/// Forgets the frames decoded or encoded so far.
pub fn sbc_reset(sbc: &mut sbc)
    ensures
        final(sbc).wf(),
        final(sbc).nchannels == 0,
        final(sbc).nblocks == 0,
        final(sbc).nsubbands == 0,
        final(sbc).history(0) == crate::decoder::Decoder::initial_history(),
        final(sbc).history(1) == crate::decoder::Decoder::initial_history(),
        final(sbc).estates[0].is_initial(),
        final(sbc).estates[1].is_initial(),
{
    *sbc = sbc::new();
}

/// Where the part of a buffer starts that holds the samples from `off` with `pitch`.
pub open spec fn view_base(off: int, pitch: int) -> int {
    off - off % pitch
}

/// Whether `n` samples from `off` with `pitch` fit a buffer of `len` samples.
pub open spec fn view_fits(len: int, off: int, pitch: int, n: int) -> bool {
    &&& pitch >= 1
    &&& view_base(off, pitch) + n * pitch <= len
}

/// The buffer `b` after samples `0..n` from `off` with `pitch` were set to `f`.
pub open spec fn spec_pcm_write(
    b: Seq<i16>,
    off: int,
    pitch: int,
    n: int,
    f: spec_fn(int) -> i16,
) -> Seq<i16> {
    Seq::new(
        b.len(),
        |j: int|
            if off <= j && (j - off) % pitch == 0 && (j - off) / pitch < n {
                f((j - off) / pitch)
            } else {
                b[j]
            },
    )
}

/// Writing a view of the part of a buffer from `view_base(off, pitch)` is writing the
/// samples from `off` of the whole buffer.
proof fn lemma_pcm_view(
    head: Seq<i16>,
    tail: Seq<i16>,
    off: int,
    pitch: int,
    n: int,
    f: spec_fn(int) -> i16,
)
    requires
        pitch >= 1,
        off >= 0,
        head.len() == view_base(off, pitch),
    ensures
        head + spec_view_write(tail, pitch, off % pitch, n, f) == spec_pcm_write(
            head + tail,
            off,
            pitch,
            n,
            f,
        ),
{
    let o = off % pitch;
    let base = head.len() as int;
    let lhs = head + spec_view_write(tail, pitch, o, n, f);
    let rhs = spec_pcm_write(head + tail, off, pitch, n, f);
    vstd::arithmetic::div_mod::lemma_fundamental_div_mod(off, pitch);
    assert forall|j: int| 0 <= j < lhs.len() implies lhs[j] == rhs[j] by {
        if j >= base {
            let jj = j - base;
            vstd::arithmetic::div_mod::lemma_fundamental_div_mod(jj, pitch);
            let q = jj / pitch;
            let r = jj % pitch;
            if view_holds(jj, pitch, o, 0, n) {
                assert(j - off == q * pitch) by (nonlinear_arith)
                    requires
                        jj == pitch * q + r,
                        r == o,
                        j == base + jj,
                        base == off - o,
                ;
                vstd::arithmetic::div_mod::lemma_fundamental_div_mod_converse(j - off, pitch, q, 0);
            } else if off <= j && (j - off) % pitch == 0 && (j - off) / pitch < n {
                let k = (j - off) / pitch;
                vstd::arithmetic::div_mod::lemma_fundamental_div_mod(j - off, pitch);
                assert(jj == k * pitch + o) by (nonlinear_arith)
                    requires
                        j - off == pitch * k,
                        j == base + jj,
                        base == off - o,
                ;
                vstd::arithmetic::div_mod::lemma_fundamental_div_mod_converse(jj, pitch, k, o);
                assert(false);
            }
        } else {
            assert(j < off);
        }
    }
    assert(lhs =~= rhs);
}

/// Sample `k` of the view from `off` with `pitch` is where it was written.
pub proof fn lemma_pcm_write_at(
    b: Seq<i16>,
    off: int,
    pitch: int,
    n: int,
    f: spec_fn(int) -> i16,
    k: int,
)
    requires
        pitch >= 1,
        0 <= k < n,
        0 <= off + k * pitch < b.len(),
    ensures
        spec_pcm_write(b, off, pitch, n, f)[off + k * pitch] == f(k),
{
    vstd::arithmetic::div_mod::lemma_fundamental_div_mod_converse(k * pitch, pitch, k, 0);
}

/// A position before the view from `off`, or between its samples, keeps its value.
pub proof fn lemma_pcm_write_other(
    b: Seq<i16>,
    off: int,
    pitch: int,
    n: int,
    f: spec_fn(int) -> i16,
    j: int,
)
    requires
        0 <= j < b.len(),
        j < off || (j - off) % pitch != 0,
    ensures
        spec_pcm_write(b, off, pitch, n, f)[j] == b[j],
{
}

/// Synthesizes `blocks` blocks of `subbands` subband samples from `data` into the
/// samples of `pcm` from `off` with `pitch`.
fn synthesize_into(
    state: &mut DecoderState,
    blocks: usize,
    subbands: usize,
    data: &[i16; 128],
    scale: i32,
    pcm: &mut [i16],
    off: usize,
    pitch: usize,
)
    requires
        old(state).index < 10,
        subbands == 4 || subbands == 8,
        4 <= blocks <= 16,
        -2 <= scale <= 14,
        view_fits(old(pcm)@.len() as int, off as int, pitch as int, (blocks * subbands) as int),
    ensures
        final(state).index < 10,
        (final(state).index as int, spec_history(final(state).v)) == spec_synth(
            spec_history(old(state).v),
            old(state).index as int,
            data@,
            scale as int,
            subbands as int,
            blocks as nat,
        ),
        final(pcm)@ == spec_pcm_write(
            old(pcm)@,
            off as int,
            pitch as int,
            (blocks * subbands) as int,
            |k: int|
                spec_synth_out(
                    spec_history(old(state).v),
                    old(state).index as int,
                    data@,
                    scale as int,
                    subbands as int,
                    k,
                ),
        ),
{
    let ghost h = spec_history(state.v);
    let ghost idx = state.index as int;
    let ghost n = (blocks * subbands) as int;
    let ghost f = |k: int| spec_synth_out(h, idx, data@, scale as int, subbands as int, k);
    let ghost len = pcm@.len() as int;
    proof {
        lemma_synth_blocks_whole(blocks as int, subbands as int);
    }
    proof {
        vstd::arithmetic::div_mod::lemma_fundamental_div_mod(off as int, pitch as int);
        assert(off % pitch <= off) by (nonlinear_arith)
            requires
                off == pitch * (off / pitch) + off % pitch,
                off / pitch >= 0,
                pitch >= 1,
        ;
    }
    let base = off - off % pitch;
    let (head, tail) = pcm.split_at_mut(base);
    let ghost tail0 = tail@;
    let mut view = BufferView { buf: tail, pitch, offset: off % pitch };
    proof {
        assert(n <= tail0.len() as int / pitch as int) by (nonlinear_arith)
            requires
                base + n * pitch <= len,
                tail0.len() == len - base,
                pitch >= 1,
                n >= 0,
        {
            vstd::arithmetic::div_mod::lemma_fundamental_div_mod(tail0.len() as int, pitch as int);
        }
    }
    synthesize(state, blocks, subbands, data, scale, &mut view);
    proof {
        lemma_view_write(tail0, view.buf@, pitch as int, (off % pitch) as int, n, f);
        lemma_pcm_view(head@, tail0, off as int, pitch as int, n, f);
    }
}

/// Whether the frame at the start of `d` decodes: a sync word, valid parameters, the
/// whole frame and a matching CRC.
pub open spec fn spec_raw_decode_ok(d: Seq<u8>) -> bool {
    let f = spec_raw_header_fields(d);
    &&& d.len() >= 4
    &&& spec_sync_ok(d)
    &&& spec_raw_check_frame(f)
    &&& d.len() >= spec_raw_frame_size(f)
    &&& spec_frame_crc(d, spec_crc_nbit(spec_header_of(f))) == d[3]
}

/// Subband samples that are all zero.
pub open spec fn spec_silence() -> Seq<i16> {
    Seq::new(128, |k: int| 0i16)
}

/// Whether the output views of a frame of `n` samples per channel fit `len` samples.
pub open spec fn outputs_fit(
    len: int,
    mode: u32,
    n: int,
    offl: usize,
    pitchl: usize,
    offr: usize,
    pitchr: usize,
) -> bool {
    &&& view_fits(len, offl as int, pitchl as int, n)
    &&& mode != SBC_MODE_MONO ==> view_fits(len, offr as int, pitchr as int, n)
}

/// Decodes the frame at the start of `data` and synthesizes its samples: those of the
/// left channel into `pcm` from `offl` with `pitchl`, those of the right channel, when
/// there are two, from `offr` with `pitchr`. 0 on success, -1 when the frame has no sync
/// word, invalid parameters, misses bytes or fails its CRC; then nothing is written.
/// Without data, the last frame's parameters are synthesized from silence, to conceal a
/// lost frame.
#[verifier::spinoff_prover]
#[verifier::rlimit(50)]
pub fn sbc_decode(
    sbc: &mut sbc,
    data: Option<&[u8]>,
    frame: &mut sbc_frame,
    pcm: &mut [i16],
    offl: usize,
    pitchl: usize,
    offr: usize,
    pitchr: usize,
) -> (r: i32)
    requires
        old(sbc).wf(),
        match data {
            Some(d) => spec_raw_decode_ok(d@) ==> {
                let f = spec_raw_header_fields(d@);
                outputs_fit(old(pcm)@.len() as int, f.mode, f.nblocks * f.nsubbands, offl, pitchl, offr, pitchr)
            },
            None => old(sbc).nblocks > 0 ==> outputs_fit(
                old(pcm)@.len() as int,
                old(frame).mode,
                old(sbc).nblocks * old(sbc).nsubbands,
                offl,
                pitchl,
                offr,
                pitchr,
            ),
        },
    ensures
        final(sbc).wf(),
        match data {
            Some(d) => {
                let ok = spec_raw_decode_ok(d@);
                let f = spec_raw_header_fields(d@);
                let h = spec_header_of(f);
                let n = f.nblocks * f.nsubbands;
                let h0 = old(sbc).history(0);
                let h1 = old(sbc).history(1);
                let w = spec_pcm_write(
                    old(pcm)@,
                    offl as int,
                    pitchl as int,
                    n,
                    |k: int| spec_decoded_sample(h0, d@, h, 0, k),
                );
                &&& r == if ok { 0i32 } else { -1i32 }
                &&& *final(frame) == if d@.len() >= 4 {
                    spec_decoded_frame(*old(frame), d@.take(4))
                } else {
                    *old(frame)
                }
                &&& !ok ==> {
                    &&& final(sbc).nchannels == old(sbc).nchannels
                    &&& final(sbc).nblocks == old(sbc).nblocks
                    &&& final(sbc).nsubbands == old(sbc).nsubbands
                    &&& final(sbc).history(0) == h0
                    &&& final(sbc).history(1) == h1
                    &&& final(pcm)@ == old(pcm)@
                }
                &&& ok ==> {
                    &&& final(sbc).nchannels == if f.mode != SBC_MODE_MONO { 2i32 } else { 1i32 }
                    &&& final(sbc).nblocks == f.nblocks
                    &&& final(sbc).nsubbands == f.nsubbands
                    &&& final(sbc).history(0) == spec_decoded_history(h0, d@, h, 0)
                    &&& final(sbc).history(1) == if f.mode != SBC_MODE_MONO {
                        spec_decoded_history(h1, d@, h, 1)
                    } else {
                        h1
                    }
                    &&& final(pcm)@ == if f.mode != SBC_MODE_MONO {
                        spec_pcm_write(
                            w,
                            offr as int,
                            pitchr as int,
                            n,
                            |k: int| spec_decoded_sample(h1, d@, h, 1, k),
                        )
                    } else {
                        w
                    }
                }
            },
            None => {
                let nb = old(sbc).nblocks;
                let ns = old(sbc).nsubbands;
                let n = nb * ns;
                let h0 = old(sbc).history(0);
                let h1 = old(sbc).history(1);
                let w = spec_pcm_write(
                    old(pcm)@,
                    offl as int,
                    pitchl as int,
                    n,
                    |k: int| spec_synth_out(h0.1, h0.0, spec_silence(), 0, ns as int, k),
                );
                let right = nb > 0 && old(frame).mode != SBC_MODE_MONO;
                &&& r == 0
                &&& *final(frame) == *old(frame)
                &&& final(sbc).nchannels == old(sbc).nchannels
                &&& final(sbc).nblocks == nb
                &&& final(sbc).nsubbands == ns
                &&& final(sbc).history(0) == if nb > 0 {
                    spec_synth(h0.1, h0.0, spec_silence(), 0, ns as int, nb as nat)
                } else {
                    h0
                }
                &&& final(sbc).history(1) == if right {
                    spec_synth(h1.1, h1.0, spec_silence(), 0, ns as int, nb as nat)
                } else {
                    h1
                }
                &&& final(pcm)@ == if nb == 0 {
                    old(pcm)@
                } else if right {
                    spec_pcm_write(
                        w,
                        offr as int,
                        pitchr as int,
                        n,
                        |k: int| spec_synth_out(h1.1, h1.0, spec_silence(), 0, ns as int, k),
                    )
                } else {
                    w
                }
            },
        },
{
    let mut samples = [[0i16; 128]; 2];
    let mut scale = [0i32; 2];
    match data {
        Some(data) => {
            let ghost d = data@;
            if data.len() < 4 {
                return -1;
            }
            let mut bits = Bits::new(Mode::Read, &data[0..4]);
            let mut crc: i32 = 0;
            if !decode_header(&mut bits, frame, Some(&mut crc)) || bits.has_error() {
                return -1;
            }
            proof {
                lemma_raw_frame_valid(*frame);
            }
            let header = header_of(frame);
            if data.len() < sbc_get_frame_size(frame) as usize {
                return -1;
            }
            proof {
                crate::decoder::frame::lemma_valid_frame_size(header);
            }
            let computed = match compute_crc(&header, data) {
                Ok(c) => c as i32,
                Err(_) => -1,
            };
            if computed != crc {
                return -1;
            }
            let (s, sc, _) = decode_payload(data, &header);
            samples = s;
            scale = sc;
            sbc.nchannels = if frame.mode != SBC_MODE_MONO { 2 } else { 1 };
            sbc.nblocks = frame.nblocks;
            sbc.nsubbands = frame.nsubbands;
            proof {
                lemma_decoded_unfold(sbc.history(0), d, header, 0);
                lemma_decoded_unfold(sbc.history(1), d, header, 1);
            }
        },
        None => {
            assert(samples[0]@ =~= spec_silence());
            assert(samples[1]@ =~= spec_silence());
        },
    }
    if sbc.nblocks > 0 {
        synthesize_into(
            &mut sbc.dstates[0],
            sbc.nblocks as usize,
            sbc.nsubbands as usize,
            &samples[0],
            scale[0],
            pcm,
            offl,
            pitchl,
        );
        if frame.mode != SBC_MODE_MONO {
            synthesize_into(
                &mut sbc.dstates[1],
                sbc.nblocks as usize,
                sbc.nsubbands as usize,
                &samples[1],
                scale[1],
                pcm,
                offr,
                pitchr,
            );
        }
    }
    0
}

} // verus!
