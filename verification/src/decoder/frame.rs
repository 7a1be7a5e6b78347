use vstd::arithmetic::div_mod::*;
use vstd::arithmetic::mul::*;
use vstd::arithmetic::power2::*;
use vstd::prelude::*;

use crate::bits::{
    bits_value, lemma_bits_value_bound, lemma_bits_value_split, lemma_stream_bit_le1, stream_bit,
    Bits, Mode,
};
use crate::decoder::bitalloc::{compute_nbits, spec_alloc_channels, spec_nbit, scale_factors_in_range};
use crate::decoder::{ChannelMode, Error, Reason, SbcHeader, MAX_CHANNELS, MAX_SAMPLES, MAX_SUBBANDS};

verus! {

/// `1 / (2^nbit - 1)` in fixed point 1.28, for `nbit` from 1 to 16.
pub const RANGE_SCALE: [i32; 16] = [
    0xfffffff, 0x5555556, 0x2492492, 0x1111111, 0x0842108, 0x0410410, 0x0204081, 0x0101010,
    0x0080402, 0x0040100, 0x0020040, 0x0010010, 0x0008004, 0x0004001, 0x0002000, 0x0001000,
];

/// A row of eight values of `f`.
pub open spec fn spec_row(f: spec_fn(int) -> i32) -> [i32; 8] {
    [f(0), f(1), f(2), f(3), f(4), f(5), f(6), f(7)]
}

/// Two rows of eight values of `f`.
pub open spec fn spec_rows(f: spec_fn(int, int) -> i32) -> [[i32; 8]; 2] {
    [spec_row(|s: int| f(0, s)), spec_row(|s: int| f(1, s))]
}

/// Number of joint-stereo flag bits at the start of a frame's payload.
pub open spec fn spec_joint_bits(h: SbcHeader) -> int {
    if h.mode == ChannelMode::JointStereo {
        h.subbands as int
    } else {
        0
    }
}

/// Whether subband `isb` is coded as sum and difference: its flag is set, the last
/// subband never is.
pub open spec fn spec_joint(d: Seq<u8>, p0: int, h: SbcHeader, isb: int) -> bool {
    h.mode == ChannelMode::JointStereo && 0 <= isb < h.subbands - 1 && stream_bit(d, p0 + isb) == 1
}

/// The joint flag of subband `isb` as a number.
pub open spec fn spec_joint_bit(d: Seq<u8>, p0: int, h: SbcHeader, isb: int) -> int {
    if spec_joint(d, p0, h, isb) {
        1
    } else {
        0
    }
}

/// Index of the scale factor of channel `ich`, subband `isb` in reading order.
pub open spec fn spec_scf_index(h: SbcHeader, ich: int, isb: int) -> int {
    if ich == 0 {
        isb
    } else if ich == 1 {
        h.subbands + isb
    } else {
        2 * h.subbands + isb
    }
}

/// The scale factor of channel `ich`, subband `isb`.
pub open spec fn spec_scale_factor(d: Seq<u8>, p0: int, h: SbcHeader, ich: int, isb: int) -> int {
    bits_value(d, p0 + spec_joint_bits(h) + 4 * spec_scf_index(h, ich, isb), 4) as int
}

/// The scale factors of a frame, zero outside its channels and subbands.
pub open spec fn spec_frame_sf(d: Seq<u8>, p0: int, h: SbcHeader) -> [[i32; 8]; 2] {
    spec_rows(
        |c: int, s: int|
            if c < h.spec_channels() && s < h.subbands {
                spec_scale_factor(d, p0, h, c, s) as i32
            } else {
                0i32
            },
    )
}

/// The number of bits of the samples of channel `ich`, subband `isb`.
pub open spec fn spec_frame_nbit(d: Seq<u8>, p0: int, h: SbcHeader, ich: int, isb: int) -> int {
    if h.mode == ChannelMode::DualChannel {
        spec_nbit(h, spec_frame_sf(d, p0, h), ich, 0, isb)
    } else {
        spec_nbit(h, spec_frame_sf(d, p0, h), 0, ich, isb)
    }
}

/// The largest of zero and the scale factors, raised by one on joint subbands, of the first
/// `n` subbands of channel `ich`.
pub open spec fn spec_max_scf(d: Seq<u8>, p0: int, h: SbcHeader, ich: int, n: nat) -> int
    decreases n,
{
    if n == 0 {
        0
    } else {
        let m = spec_max_scf(d, p0, h, ich, (n - 1) as nat);
        let v = spec_scale_factor(d, p0, h, ich, n - 1) + spec_joint_bit(d, p0, h, n - 1);
        if v > m {
            v
        } else {
            m
        }
    }
}

/// The scale of channel `ich` alone.
pub open spec fn spec_channel_scale(d: Seq<u8>, p0: int, h: SbcHeader, ich: int) -> int {
    15 - spec_max_scf(d, p0, h, ich, h.subbands as nat) - (17 - 16)
}

/// The scale of channel `ich`: in joint stereo the smaller of both.
pub open spec fn spec_frame_scale(d: Seq<u8>, p0: int, h: SbcHeader, ich: int) -> int {
    if h.mode == ChannelMode::JointStereo {
        let a = spec_channel_scale(d, p0, h, 0);
        let b = spec_channel_scale(d, p0, h, 1);
        if a < b {
            a
        } else {
            b
        }
    } else {
        spec_channel_scale(d, p0, h, ich)
    }
}

/// Bits of the samples of the first `n` subbands of channel `ich` in one block.
pub open spec fn spec_row_nbits(d: Seq<u8>, p0: int, h: SbcHeader, ich: int, n: nat) -> int
    decreases n,
{
    if n == 0 {
        0
    } else {
        spec_row_nbits(d, p0, h, ich, (n - 1) as nat) + spec_frame_nbit(d, p0, h, ich, n - 1)
    }
}

/// Bits of the samples of one block.
pub open spec fn spec_block_bits(d: Seq<u8>, p0: int, h: SbcHeader) -> int {
    spec_row_nbits(d, p0, h, 0, h.subbands as nat) + if h.spec_channels() == 2 {
        spec_row_nbits(d, p0, h, 1, h.subbands as nat)
    } else {
        0
    }
}

/// Bit where the samples start.
pub open spec fn spec_samples_start(d: Seq<u8>, p0: int, h: SbcHeader) -> int {
    p0 + spec_joint_bits(h) + 4 * h.spec_channels() * h.subbands
}

/// Bit of the sample of block `iblk`, channel `ich`, subband `isb`.
pub open spec fn spec_sample_pos(
    d: Seq<u8>,
    p0: int,
    h: SbcHeader,
    iblk: int,
    ich: int,
    isb: int,
) -> int {
    spec_samples_start(d, p0, h) + iblk * spec_block_bits(d, p0, h) + (if ich == 1 {
        spec_row_nbits(d, p0, h, 0, h.subbands as nat)
    } else {
        0
    }) + spec_row_nbits(d, p0, h, ich, isb as nat)
}

/// Bit where the samples end.
pub open spec fn spec_samples_end(d: Seq<u8>, p0: int, h: SbcHeader) -> int {
    spec_samples_start(d, p0, h) + h.blocks * spec_block_bits(d, p0, h)
}

/// A sample of `nbit` bits of value `s` scaled back:
/// `((2 s + 1) * range_scale - 2^28) / 2^(28 - (scf + 1 + scale))`, kept on 16 bits.
pub open spec fn spec_dequant(s: int, nbit: int, scf: int, scale: int) -> i16 {
    if nbit == 0 {
        0
    } else {
        (((2 * s + 1) * RANGE_SCALE[nbit - 1] - pow2(28)) / (pow2((28 - (scf + 1 + scale)) as nat)
            as int)) as i16
    }
}

/// The sample of block `iblk`, channel `ich`, subband `isb` as coded.
pub open spec fn spec_coded_sample(
    d: Seq<u8>,
    p0: int,
    h: SbcHeader,
    iblk: int,
    ich: int,
    isb: int,
) -> i16 {
    let nbit = spec_frame_nbit(d, p0, h, ich, isb);
    spec_dequant(
        bits_value(d, spec_sample_pos(d, p0, h, iblk, ich, isb), nbit as nat) as int,
        nbit,
        spec_scale_factor(d, p0, h, ich, isb),
        spec_frame_scale(d, p0, h, ich),
    )
}

/// The sample of block `iblk`, channel `ich`, subband `isb`: on joint subbands channel 0
/// holds the sum and channel 1 the difference of the coded samples, on 16 bits (a sum or
/// difference out of the range of `i16` wraps, as `i16` arithmetic without overflow
/// checks does).
pub open spec fn spec_sample(d: Seq<u8>, p0: int, h: SbcHeader, iblk: int, ich: int, isb: int) -> i16 {
    if spec_joint(d, p0, h, isb) {
        let s0 = spec_coded_sample(d, p0, h, iblk, 0, isb);
        let s1 = spec_coded_sample(d, p0, h, iblk, 1, isb);
        if ich == 0 {
            (s0 + s1) as i16
        } else {
            (s0 - s1) as i16
        }
    } else {
        spec_coded_sample(d, p0, h, iblk, ich, isb)
    }
}

/// Uncoupling undoes the encoder's sum and difference: on a joint subband whose coded
/// samples `s0` and `s1` have a sum and a difference within 16 bits, the decoded left and
/// right samples add up to `2 * s0` and differ by `2 * s1`, so that halving their sum and
/// difference gives the coded samples back.
pub proof fn lemma_uncoupling_undoes_joint(d: Seq<u8>, p0: int, h: SbcHeader, iblk: int, isb: int)
    requires
        spec_joint(d, p0, h, isb),
        -0x8000 <= spec_coded_sample(d, p0, h, iblk, 0, isb) + spec_coded_sample(
            d,
            p0,
            h,
            iblk,
            1,
            isb,
        ) <= 0x7fff,
        -0x8000 <= spec_coded_sample(d, p0, h, iblk, 0, isb) - spec_coded_sample(
            d,
            p0,
            h,
            iblk,
            1,
            isb,
        ) <= 0x7fff,
    ensures
        spec_sample(d, p0, h, iblk, 0, isb) + spec_sample(d, p0, h, iblk, 1, isb) == 2
            * spec_coded_sample(d, p0, h, iblk, 0, isb),
        spec_sample(d, p0, h, iblk, 0, isb) - spec_sample(d, p0, h, iblk, 1, isb) == 2
            * spec_coded_sample(d, p0, h, iblk, 1, isb),
{
}

/// Sample `k` of channel `ich`: block `k / subbands`, subband `k % subbands`.
pub open spec fn spec_sample_at(d: Seq<u8>, p0: int, h: SbcHeader, ich: int, k: int) -> i16 {
    spec_sample(d, p0, h, k / h.subbands as int, ich, k % h.subbands as int)
}

/// Coded sample `k` of channel `ich`: block `k / subbands`, subband `k % subbands`.
pub open spec fn spec_coded_at(d: Seq<u8>, p0: int, h: SbcHeader, ich: int, k: int) -> i16 {
    spec_coded_sample(d, p0, h, k / h.subbands as int, ich, k % h.subbands as int)
}

/// Number of padding bits after the samples, up to the next byte boundary of the data read.
pub open spec fn spec_padding_bits(d: Seq<u8>, p0: int, h: SbcHeader) -> int {
    let end = spec_samples_end(d, p0, h);
    let pos = if end < 8 * d.len() {
        end
    } else {
        8 * d.len() as int
    };
    let n = 8 - pos % 8;
    if n < 8 {
        n
    } else {
        0
    }
}

/// The flag bits of a 4-subband frame, rearranged with the first bit read as bit 0.
proof fn lemma_joint4(v: u32, k: u32, j: u32)
    by (bit_vector)
    requires
        v < 16,
        k < 4,
        j + k == 3,
    ensures
        ((((0u32 << 3u32) | ((v & 0x02u32) << 1u32) | ((v & 0x04u32) >> 1u32) | ((v & 0x08u32)
            >> 3u32)) >> k) & 1u32) == if k < 3 {
            (v >> j) & 1u32
        } else {
            0u32
        },
{
}

/// The flag bits of an 8-subband frame, rearranged with the first bit read as bit 0.
proof fn lemma_joint8(v: u32, k: u32, j: u32)
    by (bit_vector)
    requires
        v < 256,
        k < 8,
        j + k == 7,
    ensures
        ((((0u32 << 7u32) | ((v & 0x02u32) << 5u32) | ((v & 0x04u32) << 3u32) | ((v & 0x08u32)
            << 1u32) | ((v & 0x10u32) >> 1u32) | ((v & 0x20u32) >> 3u32) | ((v & 0x40u32) >> 5u32)
            | ((v & 0x80u32) >> 7u32)) >> k) & 1u32) == if k < 7 {
            (v >> j) & 1u32
        } else {
            0u32
        },
        (((0u32 << 7u32) | ((v & 0x02u32) << 5u32) | ((v & 0x04u32) << 3u32) | ((v & 0x08u32)
            << 1u32) | ((v & 0x10u32) >> 1u32) | ((v & 0x20u32) >> 3u32) | ((v & 0x40u32) >> 5u32)
            | ((v & 0x80u32) >> 7u32))) < 256,
{
}

/// Bit `k` of a value read from `n` bits.
proof fn lemma_read_bit(d: Seq<u8>, p: int, n: nat, v: u32, k: nat)
    requires
        v as nat == bits_value(d, p, n),
        k < n,
        n <= 8,
    ensures
        ((v >> ((n - 1 - k) as u32)) & 1u32) as nat == stream_bit(d, p + k),
{
    let s = (n - 1 - k) as nat;
    vstd::bits::lemma_u32_shr_is_div(v, s as u32);
    vstd::bits::lemma_u32_low_bits_mask_is_mod(v >> (s as u32), 1);
    lemma2_to64();
    crate::bits::lemma_bits_value_bit(d, p, n, k);
}

/// Reads the joint-stereo flags: bit `isb` of the result is the flag of subband `isb`.
fn read_joint(bits: &mut Bits, header: &SbcHeader) -> (mjoint: u32)
    requires
        old(bits).wf(),
        old(bits).mode() == Mode::Read,
        header.subbands == 4 || header.subbands == 8,
    ensures
        final(bits).wf(),
        final(bits).mode() == Mode::Read,
        final(bits).bytes() == old(bits).bytes(),
        final(bits).error() == old(bits).error(),
        final(bits).position() == old(bits).position() + spec_joint_bits(*header),
        mjoint < 256,
        forall|isb: u32|
            isb < header.subbands ==> ((mjoint >> isb) & 1u32) as int == #[trigger] spec_joint_bit(
                old(bits).bytes(),
                old(bits).position() as int,
                *header,
                isb as int,
            ),
{
    let ghost d = bits.bytes();
    let ghost p0 = bits.position() as int;
    if header.mode == ChannelMode::JointStereo && header.subbands == 4 {
        let v = bits.get_bits(4);
        proof {
            lemma_bits_value_bound(d, p0, 4);
            lemma2_to64();
            assert forall|isb: u32| isb < header.subbands implies ((((0u32 << 3u32) | ((v & 0x02u32)
                << 1u32) | ((v & 0x04u32) >> 1u32) | ((v & 0x08u32) >> 3u32)) >> isb) & 1u32) as int
                == #[trigger] spec_joint_bit(d, p0, *header, isb as int) by {
                lemma_joint4(v, isb, (3 - isb) as u32);
                if isb < 3 {
                    lemma_read_bit(d, p0, 4, v, isb as nat);
                    lemma_stream_bit_le1(d, p0 + isb);
                }
            }
            assert(((0u32 << 3u32) | ((v & 0x02u32) << 1u32) | ((v & 0x04u32) >> 1u32) | ((v
                & 0x08u32) >> 3u32)) < 256) by (bit_vector)
                requires
                    v < 16,
            ;
        }
        ((0x00) << 3) | ((v & 0x02) << 1) | ((v & 0x04) >> 1) | ((v & 0x08) >> 3)
    } else if header.mode == ChannelMode::JointStereo {
        let v = bits.get_bits(8);
        proof {
            lemma_bits_value_bound(d, p0, 8);
            lemma2_to64();
            lemma_joint8(v, 0, 7);
            assert forall|isb: u32| isb < header.subbands implies ((((0u32 << 7u32) | ((v
                & 0x02u32) << 5u32) | ((v & 0x04u32) << 3u32) | ((v & 0x08u32) << 1u32) | ((v
                & 0x10u32) >> 1u32) | ((v & 0x20u32) >> 3u32) | ((v & 0x40u32) >> 5u32) | ((v
                & 0x80u32) >> 7u32)) >> isb) & 1u32) as int == #[trigger] spec_joint_bit(
                d,
                p0,
                *header,
                isb as int,
            ) by {
                lemma_joint8(v, isb, (7 - isb) as u32);
                if isb < 7 {
                    lemma_read_bit(d, p0, 8, v, isb as nat);
                    lemma_stream_bit_le1(d, p0 + isb);
                }
            }
        }
        ((0x00) << 7) | ((v & 0x02) << 5) | ((v & 0x04) << 3) | ((v & 0x08) << 1) | ((v & 0x10)
            >> 1) | ((v & 0x20) >> 3) | ((v & 0x40) >> 5) | ((v & 0x80) >> 7)
    } else {
        proof {
            assert forall|isb: u32| isb < header.subbands implies ((0u32 >> isb) & 1u32) as int
                == #[trigger] spec_joint_bit(d, p0, *header, isb as int) by {
                assert((0u32 >> isb) & 1u32 == 0u32) by (bit_vector);
            }
        }
        0
    }
}

/// One step of an arithmetic right shift.
proof fn lemma_i32_shr_step(x: i32, k: u32, k1: u32)
    by (bit_vector)
    requires
        k < 31,
        k1 == k + 1,
    ensures
        x >> k1 == (x >> k) >> 1u32,
{
}

/// An arithmetic right shift by one halves, rounding down.
proof fn lemma_i32_half(y: i32)
    by (bit_vector)
    ensures
        (y >> 1u32) * 2 + (y & 1i32) == y,
        0 <= (y & 1i32) <= 1,
{
}

/// An arithmetic right shift divides by a power of two, rounding down.
pub proof fn lemma_i32_shr(x: i32, k: u32)
    requires
        k < 32,
    ensures
        (x >> k) as int == (x as int) / (pow2(k as nat) as int),
    decreases k,
{
    lemma2_to64();
    if k == 0 {
        assert(x >> 0u32 == x) by (bit_vector);
    } else {
        let j = (k - 1) as u32;
        lemma_i32_shr(x, j);
        lemma_i32_shr_step(x, j, k);
        let y = x >> j;
        lemma_i32_half(y);
        let q = (x as int) / (pow2(j as nat) as int);
        let r = (x as int) % (pow2(j as nat) as int);
        lemma_pow2_pos(j as nat);
        lemma_fundamental_div_mod(x as int, pow2(j as nat) as int);
        lemma_pow2_unfold(k as nat);
        let b = (y & 1i32) as int;
        let z = (y >> 1u32) as int;
        assert(0 <= r < pow2(j as nat));
        assert(x as int == z * (pow2(k as nat) as int) + (b * (pow2(j as nat) as int) + r)) by (
        nonlinear_arith)
            requires
                x as int == pow2(j as nat) * q + r,
                q == y as int,
                z * 2 + b == y as int,
                pow2(k as nat) == 2 * pow2(j as nat),
        ;
        assert(0 <= b * (pow2(j as nat) as int) + r < pow2(k as nat)) by (nonlinear_arith)
            requires
                0 <= b <= 1,
                0 <= r < pow2(j as nat),
                pow2(k as nat) == 2 * pow2(j as nat),
        ;
        lemma_fundamental_div_mod_converse(
            x as int,
            pow2(k as nat) as int,
            z,
            b * (pow2(j as nat) as int) + r,
        );
    }
}

/// The products of the dequantization fit in 32 bits.
proof fn lemma_range_scale_fits(n: int)
    requires
        1 <= n <= 16,
    ensures
        (2 * pow2(n as nat) - 1) * RANGE_SCALE[n - 1] <= 0x7fff_ffff,
        0 < RANGE_SCALE[n - 1] <= 0x0fff_ffff,
{
    lemma2_to64();
    let p = pow2(n as nat) as int;
    let r = RANGE_SCALE[n - 1] as int;
    if n == 1 {
        assert(p == 2 && r == 0xfffffff);
        assert((2 * p - 1) * r <= 0x7fff_ffff) by (nonlinear_arith)
            requires
                p == 2,
                r == 0xfffffff,
        ;
    } else if n == 2 {
        assert(p == 4 && r == 0x5555556);
        assert((2 * p - 1) * r <= 0x7fff_ffff) by (nonlinear_arith)
            requires
                p == 4,
                r == 0x5555556,
        ;
    } else if n == 3 {
        assert(p == 8 && r == 0x2492492);
        assert((2 * p - 1) * r <= 0x7fff_ffff) by (nonlinear_arith)
            requires
                p == 8,
                r == 0x2492492,
        ;
    } else if n == 4 {
        assert(p == 16 && r == 0x1111111);
        assert((2 * p - 1) * r <= 0x7fff_ffff) by (nonlinear_arith)
            requires
                p == 16,
                r == 0x1111111,
        ;
    } else if n == 5 {
        assert(p == 32 && r == 0x0842108);
        assert((2 * p - 1) * r <= 0x7fff_ffff) by (nonlinear_arith)
            requires
                p == 32,
                r == 0x0842108,
        ;
    } else if n == 6 {
        assert(p == 64 && r == 0x0410410);
        assert((2 * p - 1) * r <= 0x7fff_ffff) by (nonlinear_arith)
            requires
                p == 64,
                r == 0x0410410,
        ;
    } else if n == 7 {
        assert(p == 128 && r == 0x0204081);
        assert((2 * p - 1) * r <= 0x7fff_ffff) by (nonlinear_arith)
            requires
                p == 128,
                r == 0x0204081,
        ;
    } else if n == 8 {
        assert(p == 256 && r == 0x0101010);
        assert((2 * p - 1) * r <= 0x7fff_ffff) by (nonlinear_arith)
            requires
                p == 256,
                r == 0x0101010,
        ;
    } else if n == 9 {
        assert(p == 512 && r == 0x0080402);
        assert((2 * p - 1) * r <= 0x7fff_ffff) by (nonlinear_arith)
            requires
                p == 512,
                r == 0x0080402,
        ;
    } else if n == 10 {
        assert(p == 1024 && r == 0x0040100);
        assert((2 * p - 1) * r <= 0x7fff_ffff) by (nonlinear_arith)
            requires
                p == 1024,
                r == 0x0040100,
        ;
    } else if n == 11 {
        assert(p == 2048 && r == 0x0020040);
        assert((2 * p - 1) * r <= 0x7fff_ffff) by (nonlinear_arith)
            requires
                p == 2048,
                r == 0x0020040,
        ;
    } else if n == 12 {
        assert(p == 4096 && r == 0x0010010);
        assert((2 * p - 1) * r <= 0x7fff_ffff) by (nonlinear_arith)
            requires
                p == 4096,
                r == 0x0010010,
        ;
    } else if n == 13 {
        assert(p == 8192 && r == 0x0008004);
        assert((2 * p - 1) * r <= 0x7fff_ffff) by (nonlinear_arith)
            requires
                p == 8192,
                r == 0x0008004,
        ;
    } else if n == 14 {
        assert(p == 16384 && r == 0x0004001);
        assert((2 * p - 1) * r <= 0x7fff_ffff) by (nonlinear_arith)
            requires
                p == 16384,
                r == 0x0004001,
        ;
    } else if n == 15 {
        assert(p == 32768 && r == 0x0002000);
        assert((2 * p - 1) * r <= 0x7fff_ffff) by (nonlinear_arith)
            requires
                p == 32768,
                r == 0x0002000,
        ;
    } else {
        assert(p == 65536 && r == 0x0001000);
        assert((2 * p - 1) * r <= 0x7fff_ffff) by (nonlinear_arith)
            requires
                p == 65536,
                r == 0x0001000,
        ;
    }
}

/// Doubling and setting the low bit.
proof fn lemma_odd(s: i32)
    by (bit_vector)
    requires
        0 <= s < 0x10000,
    ensures
        (s << 1i32) | 1i32 == 2 * s + 1,
{
}

/// The largest raised scale factor bounds each one and is at most 16.
proof fn lemma_max_scf(d: Seq<u8>, p0: int, h: SbcHeader, ich: int, n: nat)
    requires
        n <= h.subbands,
    ensures
        0 <= spec_max_scf(d, p0, h, ich, n) <= 16,
        forall|isb: int|
            0 <= isb < n ==> spec_scale_factor(d, p0, h, ich, isb) + spec_joint_bit(d, p0, h, isb)
                <= spec_max_scf(d, p0, h, ich, n),
    decreases n,
{
    if n > 0 {
        lemma_max_scf(d, p0, h, ich, (n - 1) as nat);
        lemma_bits_value_bound(
            d,
            p0 + spec_joint_bits(h) + 4 * spec_scf_index(h, ich, n - 1),
            4,
        );
        lemma2_to64();
    }
}

/// The number of bits of a sample is at most 16.
proof fn lemma_frame_nbit_range(d: Seq<u8>, p0: int, h: SbcHeader, ich: int, isb: int)
    ensures
        0 <= spec_frame_nbit(d, p0, h, ich, isb) <= 16,
{
}

/// After the last subband of a channel come the samples of the next channel.
proof fn lemma_sample_pos_next_channel(d: Seq<u8>, p0: int, h: SbcHeader, iblk: int, ich: int)
    requires
        0 <= ich <= 1,
    ensures
        spec_sample_pos(d, p0, h, iblk, ich, h.subbands as int) == spec_samples_start(d, p0, h)
            + iblk * spec_block_bits(d, p0, h) + (if ich + 1 >= 1 {
            spec_row_nbits(d, p0, h, 0, h.subbands as nat)
        } else {
            0
        }) + (if ich + 1 >= 2 {
            spec_row_nbits(d, p0, h, 1, h.subbands as nat)
        } else {
            0
        }),
{
}

/// After the last channel of a block come the samples of the next block.
proof fn lemma_sample_pos_next_block(d: Seq<u8>, p0: int, h: SbcHeader, iblk: int)
    ensures
        spec_samples_start(d, p0, h) + iblk * spec_block_bits(d, p0, h) + spec_row_nbits(
            d,
            p0,
            h,
            0,
            h.subbands as nat,
        ) + (if h.spec_channels() >= 2 {
            spec_row_nbits(d, p0, h, 1, h.subbands as nat)
        } else {
            0
        }) == spec_samples_start(d, p0, h) + (iblk + 1) * spec_block_bits(d, p0, h),
{
    lemma_mul_is_distributive_add_other_way(spec_block_bits(d, p0, h), iblk, 1);
}

/// An entry of two rows built from a function.
pub proof fn lemma_spec_rows(f: spec_fn(int, int) -> i32, c: int, s: int)
    requires
        0 <= c < 2,
        0 <= s < 8,
    ensures
        spec_rows(f)[c][s] == f(c, s),
{
}

/// A checked header's bitpool fits the bits its allocation can hand out.
proof fn lemma_valid_bitpool(h: SbcHeader)
    requires
        h.is_valid(),
    ensures
        h.bitpool <= 16 * spec_alloc_channels(h) * h.subbands,
{
    let two: int = if h.mode != ChannelMode::Mono { 2 } else { 1 };
    let dual: int = if h.mode == ChannelMode::DualChannel { 2 } else { 1 };
    let max_bits = (16 * h.subbands * h.blocks) * two - 4 * 8 - (4 * h.subbands) * two - (if h.mode
        == ChannelMode::JointStereo {
        h.subbands as int
    } else {
        0
    });
    let per_block = max_bits / (h.blocks * dual);
    let cap = 16 * spec_alloc_channels(h) * h.subbands;
    assert(max_bits <= cap * (h.blocks * dual)) by (nonlinear_arith)
        requires
            max_bits <= (16 * h.subbands * h.blocks) * two,
            two == 1 ==> dual == 1 && spec_alloc_channels(h) == 1,
            two == 2 && dual == 2 ==> spec_alloc_channels(h) == 1,
            two == 2 && dual == 1 ==> spec_alloc_channels(h) == 2,
            two == 1 || two == 2,
            dual == 1 || dual == 2,
            cap == 16 * spec_alloc_channels(h) * h.subbands,
            h.blocks >= 4,
    ;
    assert(h.blocks * dual > 0) by (nonlinear_arith)
        requires
            h.blocks >= 4,
            dual >= 1,
    ;
    lemma_div_is_ordered(max_bits, cap * (h.blocks * dual), h.blocks * dual);
    lemma_div_by_multiple(cap, h.blocks * dual);
}

/// The frame size of a checked header is small, and covers the bits the CRC protects.
pub proof fn lemma_valid_frame_size(h: SbcHeader)
    requires
        h.is_valid(),
    ensures
        h.frame_size_fits(),
        4 <= h.spec_frame_size() <= 2048,
        (32 + crate::decoder::crc::spec_crc_nbit(h) + 7) / 8 <= h.spec_frame_size(),
        h.blocks * h.subbands <= 128,
{
    lemma_valid_bitpool(h);
    assert(h.blocks * h.bitpool <= 16 * 256 && h.blocks * h.subbands <= 128) by (nonlinear_arith)
        requires
            h.blocks <= 16,
            h.bitpool <= 16 * spec_alloc_channels(h) * h.subbands,
            spec_alloc_channels(h) <= 2,
            h.subbands <= 8,
    ;
    let dual: int = if h.mode == ChannelMode::DualChannel { 2 } else { 1 };
    assert((h.blocks * h.bitpool) * dual >= 0) by (nonlinear_arith)
        requires
            h.blocks >= 0,
            h.bitpool >= 0,
            dual >= 1,
    ;
    let nbit = crate::decoder::crc::spec_crc_nbit(h);
    let two: int = if h.mode != ChannelMode::Mono { 2 } else { 1 };
    assert(h.spec_channels() * h.subbands * 4 == (4 * h.subbands) * two) by (nonlinear_arith)
        requires
            h.spec_channels() == two,
    ;
    assert(nbit <= h.spec_payload_bits());
    lemma_div_is_ordered(nbit + 7, h.spec_payload_bits() + 7, 8);
    assert((32 + nbit + 7) / 8 == 4 + (nbit + 7) / 8) by {
        lemma_div_plus_one(nbit + 7, 8);
    }
}

/// Reads the scale factors of a frame, after its joint-stereo flags.
fn read_scale_factors(
    bits: &mut Bits,
    header: &SbcHeader,
    scale_factors: &mut [[i32; MAX_SUBBANDS]; 2],
    Ghost(p0): Ghost<int>,
)
    requires
        old(bits).wf(),
        old(bits).mode() == Mode::Read,
        header.is_valid(),
        old(bits).position() == p0 + spec_joint_bits(*header),
        forall|c: int, s: int| 0 <= c < 2 && 0 <= s < 8 ==> #[trigger] old(scale_factors)[c][s] == 0,
    ensures
        final(bits).wf(),
        final(bits).mode() == Mode::Read,
        final(bits).bytes() == old(bits).bytes(),
        final(bits).error() == old(bits).error(),
        final(bits).position() == p0 + spec_joint_bits(*header) + 4 * header.spec_channels()
            * header.subbands,
        *final(scale_factors) == spec_frame_sf(old(bits).bytes(), p0, *header),
        scale_factors_in_range(*final(scale_factors), 0, 2, 8),
{
    let ghost d = bits.bytes();
    let ghost h = *header;
    let channels = header.channels() as usize;
    let subbands = header.subbands as usize;
    let mut ich: usize = 0;
    while ich < channels
        invariant
            0 <= ich <= channels,
            channels == h.spec_channels(),
            subbands == h.subbands,
            h == *header,
            h.is_valid(),
            bits.wf(),
            bits.mode() == Mode::Read,
            bits.bytes() == d,
            bits.error() == old(bits).error(),
            bits.position() == p0 + spec_joint_bits(h) + 4 * spec_scf_index(h, ich as int, 0),
            forall|c: int, s: int|
                0 <= c < 2 && 0 <= s < 8 ==> #[trigger] scale_factors[c][s] == if c < ich && s
                    < subbands {
                    spec_scale_factor(d, p0, h, c, s) as i32
                } else {
                    0i32
                },
        decreases channels - ich,
    {
        let mut isb: usize = 0;
        while isb < subbands
            invariant
                0 <= ich < channels,
                0 <= isb <= subbands,
                channels == h.spec_channels(),
                subbands == h.subbands,
                h == *header,
                h.is_valid(),
                bits.wf(),
                bits.mode() == Mode::Read,
                bits.bytes() == d,
                bits.error() == old(bits).error(),
                bits.position() == p0 + spec_joint_bits(h) + 4 * spec_scf_index(
                    h,
                    ich as int,
                    isb as int,
                ),
                forall|c: int, s: int|
                    0 <= c < 2 && 0 <= s < 8 ==> #[trigger] scale_factors[c][s] == if (c < ich && s
                        < subbands) || (c == ich && s < isb) {
                        spec_scale_factor(d, p0, h, c, s) as i32
                    } else {
                        0i32
                    },
            decreases subbands - isb,
        {
            proof {
                lemma_bits_value_bound(d, bits.position() as int, 4);
                lemma2_to64();
            }
            scale_factors[ich][isb] = bits.get_bits(4) as i32;
            isb += 1;
        }
        ich += 1;
    }
    proof {
        assert(4 * h.spec_channels() * h.subbands == if h.spec_channels() == 1 {
            4 * h.subbands
        } else {
            8 * h.subbands
        }) by (nonlinear_arith)
            requires
                h.spec_channels() == 1 || h.spec_channels() == 2,
        ;
        assert(4 * spec_scf_index(h, channels as int, 0) == 4 * h.spec_channels() * h.subbands);
        let sf = spec_frame_sf(d, p0, h);
        assert forall|c: int| 0 <= c < 2 implies scale_factors[c] =~= sf[c] by {
            assert forall|s: int| 0 <= s < 8 implies scale_factors[c][s] == sf[c][s] by {
                lemma_spec_rows(
                    |c: int, s: int|
                        if c < h.spec_channels() && s < h.subbands {
                            spec_scale_factor(d, p0, h, c, s) as i32
                        } else {
                            0i32
                        },
                    c,
                    s,
                );
            }
        }
        assert(*scale_factors =~= sf);
        assert forall|c: int, s: int|
            0 <= c < 2 && 0 <= s < 8 implies 0 <= #[trigger] sf[c][s] <= 15 by {
            if c < channels && s < subbands {
                lemma_bits_value_bound(
                    d,
                    p0 + spec_joint_bits(h) + 4 * spec_scf_index(h, c, s),
                    4,
                );
                lemma2_to64();
            }
        }
    }
}

/// Computes the scale of each channel from its scale factors and the joint-stereo flags.
fn compute_scales(
    header: &SbcHeader,
    scale_factors: &[[i32; MAX_SUBBANDS]; 2],
    mjoint: u32,
    scale: &mut [i32; MAX_CHANNELS],
    Ghost(d): Ghost<Seq<u8>>,
    Ghost(p0): Ghost<int>,
)
    requires
        header.is_valid(),
        *scale_factors == spec_frame_sf(d, p0, *header),
        forall|isb: u32|
            isb < header.subbands ==> ((mjoint >> isb) & 1u32) as int == #[trigger] spec_joint_bit(
                d,
                p0,
                *header,
                isb as int,
            ),
    ensures
        forall|c: int|
            0 <= c < header.spec_channels() ==> #[trigger] final(scale)[c] == spec_frame_scale(
                d,
                p0,
                *header,
                c,
            ),
        header.spec_channels() == 1 ==> final(scale)[1] == old(scale)[1],
{
    let ghost h = *header;
    let channels = header.channels() as usize;
    let subbands = header.subbands as usize;
    let ghost scale0 = *scale;
    let mut ich: usize = 0;
    while ich < channels
        invariant
            0 <= ich <= channels,
            channels == h.spec_channels(),
            subbands == h.subbands,
            h == *header,
            h.is_valid(),
            *scale_factors == spec_frame_sf(d, p0, h),
            forall|isb: u32|
                isb < h.subbands ==> ((mjoint >> isb) & 1u32) as int == #[trigger] spec_joint_bit(
                    d,
                    p0,
                    h,
                    isb as int,
                ),
            forall|c: int| 0 <= c < ich ==> #[trigger] scale[c] == spec_channel_scale(d, p0, h, c),
            forall|c: int| ich <= c < 2 ==> #[trigger] scale[c] == scale0[c],
        decreases channels - ich,
    {
        let mut max_scf: i32 = 0;
        let mut isb: usize = 0;
        while isb < subbands
            invariant
                0 <= ich < channels,
                0 <= isb <= subbands,
                channels == h.spec_channels(),
                subbands == h.subbands,
                h == *header,
                h.is_valid(),
                *scale_factors == spec_frame_sf(d, p0, h),
                forall|isb: u32|
                    isb < h.subbands ==> ((mjoint >> isb) & 1u32) as int
                        == #[trigger] spec_joint_bit(d, p0, h, isb as int),
                max_scf == spec_max_scf(d, p0, h, ich as int, isb as nat),
                0 <= max_scf <= 16,
            decreases subbands - isb,
        {
            proof {
                lemma_spec_rows(
                    |c: int, s: int|
                        if c < h.spec_channels() && s < h.subbands {
                            spec_scale_factor(d, p0, h, c, s) as i32
                        } else {
                            0i32
                        },
                    ich as int,
                    isb as int,
                );
                lemma_bits_value_bound(
                    d,
                    p0 + spec_joint_bits(h) + 4 * spec_scf_index(h, ich as int, isb as int),
                    4,
                );
                lemma2_to64();
                assert(spec_joint_bit(d, p0, h, (isb as u32) as int) == ((mjoint >> (isb as u32))
                    & 1u32) as int);
            }
            let scf = scale_factors[ich][isb] + (((mjoint >> (isb as u32)) & 1) as i32);
            if scf > max_scf {
                max_scf = scf;
            }
            isb += 1;
        }
        scale[ich] = 15 - max_scf - (17 - 16);
        ich += 1;
    }
    if header.mode == ChannelMode::JointStereo {
        scale[0] = if scale[0] < scale[1] {
            scale[0]
        } else {
            scale[1]
        };
        scale[1] = if scale[0] < scale[1] {
            scale[0]
        } else {
            scale[1]
        };
    }
}

/// A scale factor plus its channel's scale is at most 14, and the scale at least -2.
pub proof fn lemma_scale_bounds(d: Seq<u8>, p0: int, h: SbcHeader, c: int, isb: int)
    requires
        0 <= c < h.spec_channels(),
        0 <= isb < h.subbands,
    ensures
        spec_scale_factor(d, p0, h, c, isb) + spec_frame_scale(d, p0, h, c) <= 14,
        -2 <= spec_frame_scale(d, p0, h, c),
        0 <= spec_scale_factor(d, p0, h, c, isb) <= 15,
{
    lemma_max_scf(d, p0, h, c, h.subbands as nat);
    lemma_max_scf(d, p0, h, 0, h.subbands as nat);
    if h.spec_channels() == 2 {
        lemma_max_scf(d, p0, h, 1, h.subbands as nat);
    }
    assert(spec_scale_factor(d, p0, h, c, isb) + spec_joint_bit(d, p0, h, isb) <= spec_max_scf(
        d,
        p0,
        h,
        c,
        h.subbands as nat,
    ));
    lemma_bits_value_bound(d, p0 + spec_joint_bits(h) + 4 * spec_scf_index(h, c, isb), 4);
    lemma2_to64();
}

/// Scales back a sample of value `s` coded on `nbit` bits.
fn dequant(s: i32, nbit: i32, scf: i32, scale: i32) -> (r: i16)
    requires
        1 <= nbit <= 16,
        0 <= s < pow2(nbit as nat),
        0 <= scf,
        scf + scale <= 14,
        -2 <= scale,
    ensures
        r == spec_dequant(s as int, nbit as int, scf as int, scale as int),
{
    proof {
        lemma2_to64();
        if nbit < 16 {
            lemma_pow2_strictly_increases(nbit as nat, 16);
        }
        lemma_odd(s);
        lemma_range_scale_fits(nbit as int);
        lemma_mul_inequality(2 * s + 1, 2 * pow2(nbit as nat) - 1, RANGE_SCALE[nbit - 1] as int);
        lemma_mul_nonnegative(2 * s + 1, RANGE_SCALE[nbit - 1] as int);
    }
    let s = ((s << 1) | 1) * RANGE_SCALE[(nbit - 1) as usize];
    assert((1i32 << 28i32) == 0x1000_0000) by (bit_vector);
    let x = s - (1 << 28);
    let shr = 28 - ((scf + 1) + scale);
    proof {
        lemma_i32_shr(x, shr as u32);
    }
    (x >> (shr as u32)) as i16
}

/// The coded sample at the index of block `iblk`, subband `isb`.
proof fn lemma_coded_at(d: Seq<u8>, p0: int, h: SbcHeader, c: int, iblk: int, isb: int, k: int)
    requires
        h.subbands == 4 || h.subbands == 8,
        0 <= isb < h.subbands,
        0 <= iblk,
        k == iblk * h.subbands + isb,
    ensures
        spec_coded_at(d, p0, h, c, k) == spec_coded_sample(d, p0, h, iblk, c, isb),
{
    lemma_fundamental_div_mod_converse(k, h.subbands as int, iblk, isb);
}

/// Reads and scales back the samples of every block and channel.
fn read_samples(
    bits: &mut Bits,
    header: &SbcHeader,
    nbits: &[[i32; MAX_SUBBANDS]; 2],
    scale_factors: &[[i32; MAX_SUBBANDS]; 2],
    scale: &[i32; MAX_CHANNELS],
    samples: &mut [[i16; MAX_SAMPLES]; MAX_CHANNELS],
    Ghost(p0): Ghost<int>,
)
    requires
        old(bits).wf(),
        old(bits).mode() == Mode::Read,
        header.is_valid(),
        old(bits).position() == spec_samples_start(old(bits).bytes(), p0, *header),
        *scale_factors == spec_frame_sf(old(bits).bytes(), p0, *header),
        forall|c: int, isb: int|
            0 <= c < header.spec_channels() && 0 <= isb < header.subbands ==> #[trigger] nbits[c][isb]
                == spec_frame_nbit(old(bits).bytes(), p0, *header, c, isb),
        forall|c: int|
            0 <= c < header.spec_channels() ==> #[trigger] scale[c] == spec_frame_scale(
                old(bits).bytes(),
                p0,
                *header,
                c,
            ),
    ensures
        final(bits).wf(),
        final(bits).mode() == Mode::Read,
        final(bits).bytes() == old(bits).bytes(),
        final(bits).error() == old(bits).error(),
        final(bits).position() == spec_samples_end(old(bits).bytes(), p0, *header),
        forall|c: int, k: int|
            0 <= c < 2 && 0 <= k < 128 ==> #[trigger] final(samples)[c][k] == if c
                < header.spec_channels() && k < header.blocks * header.subbands {
                spec_coded_at(old(bits).bytes(), p0, *header, c, k)
            } else {
                old(samples)[c][k]
            },
{
    let ghost d = bits.bytes();
    let ghost h = *header;
    let channels = header.channels() as usize;
    let subbands = header.subbands as usize;
    let blocks = header.blocks as usize;
    let ghost start = spec_samples_start(d, p0, h);
    let ghost bb = spec_block_bits(d, p0, h);
    let ghost old_samples = *samples;
    let mut iblk: usize = 0;
    let ghost mut base: int = 0;
    while iblk < blocks
        invariant
            0 <= iblk <= blocks,
            blocks == h.blocks,
            blocks <= 16,
            channels == h.spec_channels(),
            subbands == h.subbands,
            h == *header,
            h.is_valid(),
            base == iblk * subbands,
            bits.wf(),
            bits.mode() == Mode::Read,
            bits.bytes() == d,
            bits.error() == old(bits).error(),
            bits.position() == start + iblk * bb,
            start == spec_samples_start(d, p0, h),
            bb == spec_block_bits(d, p0, h),
            *scale_factors == spec_frame_sf(d, p0, h),
            forall|c: int, isb: int|
                0 <= c < channels && 0 <= isb < subbands ==> #[trigger] nbits[c][isb]
                    == spec_frame_nbit(d, p0, h, c, isb),
            forall|c: int| 0 <= c < channels ==> #[trigger] scale[c] == spec_frame_scale(d, p0, h, c),
            forall|c: int, k: int|
                0 <= c < 2 && 0 <= k < 128 ==> #[trigger] samples[c][k] == if c < channels && k
                    < base {
                    spec_coded_at(d, p0, h, c, k)
                } else {
                    old_samples[c][k]
                },
        decreases blocks - iblk,
    {
        let mut ich: usize = 0;
        while ich < channels
            invariant
                0 <= iblk < blocks,
                0 <= ich <= channels,
                blocks == h.blocks,
                blocks <= 16,
                channels == h.spec_channels(),
                subbands == h.subbands,
                h == *header,
                h.is_valid(),
                base == iblk * subbands,
                bits.wf(),
                bits.mode() == Mode::Read,
                bits.bytes() == d,
                bits.error() == old(bits).error(),
                start == spec_samples_start(d, p0, h),
                bb == spec_block_bits(d, p0, h),
                bits.position() == start + iblk * bb + (if ich >= 1 {
                    spec_row_nbits(d, p0, h, 0, subbands as nat)
                } else {
                    0
                }) + (if ich >= 2 {
                    spec_row_nbits(d, p0, h, 1, subbands as nat)
                } else {
                    0
                }),
                *scale_factors == spec_frame_sf(d, p0, h),
                forall|c: int, isb: int|
                    0 <= c < channels && 0 <= isb < subbands ==> #[trigger] nbits[c][isb]
                        == spec_frame_nbit(d, p0, h, c, isb),
                forall|c: int| 0 <= c < channels ==> #[trigger] scale[c] == spec_frame_scale(d, p0, h, c),
                forall|c: int, k: int|
                    0 <= c < 2 && 0 <= k < 128 ==> #[trigger] samples[c][k] == if c < channels && (k
                        < base || (c < ich && k < base + subbands)) {
                        spec_coded_at(d, p0, h, c, k)
                    } else {
                        old_samples[c][k]
                    },
            decreases channels - ich,
        {
            let mut index = iblk * subbands;
            let mut isb: usize = 0;
            while isb < subbands
                invariant
                    0 <= iblk < blocks,
                    0 <= ich < channels,
                    0 <= isb <= subbands,
                    blocks == h.blocks,
                    blocks <= 16,
                    channels == h.spec_channels(),
                    subbands == h.subbands,
                    h == *header,
                    h.is_valid(),
                    base == iblk * subbands,
                    index == base + isb,
                    bits.wf(),
                    bits.mode() == Mode::Read,
                    bits.bytes() == d,
                    bits.error() == old(bits).error(),
                    bits.position() == spec_sample_pos(d, p0, h, iblk as int, ich as int, isb as int),
                    *scale_factors == spec_frame_sf(d, p0, h),
                    forall|c: int, isb: int|
                        0 <= c < channels && 0 <= isb < subbands ==> #[trigger] nbits[c][isb]
                            == spec_frame_nbit(d, p0, h, c, isb),
                    forall|c: int| 0 <= c < channels ==> #[trigger] scale[c] == spec_frame_scale(d, p0, h, c),
                    forall|c: int, k: int|
                        0 <= c < 2 && 0 <= k < 128 ==> #[trigger] samples[c][k] == if c < channels
                            && (k < base || (c < ich && k < base + subbands) || (c == ich && k
                            < base + isb)) {
                            spec_coded_at(d, p0, h, c, k)
                        } else {
                            old_samples[c][k]
                        },
                decreases subbands - isb,
            {
                let nbit = nbits[ich][isb];
                let scf = scale_factors[ich][isb];
                proof {
                    lemma_frame_nbit_range(d, p0, h, ich as int, isb as int);
                    lemma_scale_bounds(d, p0, h, ich as int, isb as int);
                    lemma_spec_rows(
                        |c: int, s: int|
                            if c < h.spec_channels() && s < h.subbands {
                                spec_scale_factor(d, p0, h, c, s) as i32
                            } else {
                                0i32
                            },
                        ich as int,
                        isb as int,
                    );
                    lemma_coded_at(d, p0, h, ich as int, iblk as int, isb as int, index as int);
                    assert(index < 128) by (nonlinear_arith)
                        requires
                            index == iblk * subbands + isb,
                            iblk < 16,
                            isb < subbands,
                            subbands <= 8,
                    ;
                }
                if nbit == 0 {
                    samples[ich][index] = 0;
                } else {
                    proof {
                        lemma_bits_value_bound(d, bits.position() as int, nbit as nat);
                        lemma2_to64();
                        if nbit < 16 {
                            lemma_pow2_strictly_increases(nbit as nat, 16);
                        }
                    }
                    let v = bits.get_bits(nbit as u32);
                    let s = v as i32;
                    assert(s as int == bits_value(
                        d,
                        spec_sample_pos(d, p0, h, iblk as int, ich as int, isb as int),
                        nbit as nat,
                    ));
                    samples[ich][index] = dequant(s, nbit, scf, scale[ich]);
                }
                assert(samples[ich as int][index as int] == spec_coded_at(d, p0, h, ich as int, index as int));
                index += 1;
                isb += 1;
            }
            proof {
                lemma_sample_pos_next_channel(d, p0, h, iblk as int, ich as int);
            }
            ich += 1;
        }
        proof {
            lemma_sample_pos_next_block(d, p0, h, iblk as int);
            lemma_mul_is_distributive_add_other_way(subbands as int, iblk as int, 1);
            base = base + subbands;
        }
        iblk += 1;
    }
}

/// Index, block and subband of a sample correspond.
proof fn lemma_index(k: int, sb: int, iblk: int, isb: int)
    requires
        sb == 4 || sb == 8,
        0 <= isb < sb,
        0 <= iblk,
        k == iblk * sb + isb,
    ensures
        k / sb == iblk,
        k % sb == isb,
{
    lemma_fundamental_div_mod_converse(k, sb, iblk, isb);
}

/// Recombines the sum and difference of joint-stereo subbands into left and right.
#[verifier::spinoff_prover]
fn uncouple(
    header: &SbcHeader,
    samples: &mut [[i16; MAX_SAMPLES]; MAX_CHANNELS],
    mjoint: u32,
    Ghost(d): Ghost<Seq<u8>>,
    Ghost(p0): Ghost<int>,
)
    requires
        header.is_valid(),
        forall|isb: u32|
            isb < header.subbands ==> ((mjoint >> isb) & 1u32) as int == #[trigger] spec_joint_bit(
                d,
                p0,
                *header,
                isb as int,
            ),
        forall|c: int, k: int|
            0 <= c < header.spec_channels() && 0 <= k < header.blocks * header.subbands
                ==> #[trigger] old(samples)[c][k] == spec_coded_at(d, p0, *header, c, k),
    ensures
        forall|c: int, k: int|
            0 <= c < 2 && 0 <= k < 128 ==> #[trigger] final(samples)[c][k] == if c
                < header.spec_channels() && k < header.blocks * header.subbands {
                spec_sample_at(d, p0, *header, c, k)
            } else {
                old(samples)[c][k]
            },
{
    let ghost h = *header;
    let ghost sb = h.subbands as int;
    let ghost nk = h.blocks * h.subbands;
    let ghost old_samples = *samples;
    let subbands = header.subbands as usize;
    let blocks = header.blocks as usize;
    assert(nk <= 128) by (nonlinear_arith)
        requires
            nk == h.blocks * h.subbands,
            h.blocks <= 16,
            h.subbands <= 8,
    ;
    let mut isb: usize = 0;
    while isb < subbands
        invariant
            0 <= isb <= subbands,
            subbands == h.subbands,
            sb == h.subbands,
            blocks == h.blocks,
            h == *header,
            h.is_valid(),
            nk == h.blocks * h.subbands,
            nk <= 128,
            forall|isb: u32|
                isb < h.subbands ==> ((mjoint >> isb) & 1u32) as int == #[trigger] spec_joint_bit(
                    d,
                    p0,
                    h,
                    isb as int,
                ),
            forall|c: int, k: int|
                0 <= c < 2 && 0 <= k < 128 ==> #[trigger] samples[c][k] == if c < h.spec_channels()
                    && k < nk {
                    if k % sb < isb {
                        spec_sample_at(d, p0, h, c, k)
                    } else {
                        spec_coded_at(d, p0, h, c, k)
                    }
                } else {
                    old_samples[c][k]
                },
        decreases subbands - isb,
    {
        if (mjoint >> (isb as u32)) & 1 == 0 {
            proof {
                assert(!spec_joint(d, p0, h, isb as int)) by {
                    assert(spec_joint_bit(d, p0, h, (isb as u32) as int) == ((mjoint >> (isb as u32))
                        & 1u32) as int);
                }
            }
            isb += 1;
            continue;
        }
        proof {
            assert(spec_joint(d, p0, h, isb as int)) by {
                assert(spec_joint_bit(d, p0, h, (isb as u32) as int) == ((mjoint >> (isb as u32))
                    & 1u32) as int);
            }
        }
        let mut iblk: usize = 0;
        while iblk < blocks
            invariant
                0 <= isb < subbands,
                0 <= iblk <= blocks,
                subbands == h.subbands,
                sb == h.subbands,
                blocks == h.blocks,
                h == *header,
                h.is_valid(),
                nk == h.blocks * h.subbands,
                nk <= 128,
                spec_joint(d, p0, h, isb as int),
                h.spec_channels() == 2,
                forall|c: int, k: int|
                    0 <= c < 2 && 0 <= k < 128 ==> #[trigger] samples[c][k] == if c
                        < h.spec_channels() && k < nk {
                        if k % sb < isb || (k % sb == isb && k / sb < iblk) {
                            spec_sample_at(d, p0, h, c, k)
                        } else {
                            spec_coded_at(d, p0, h, c, k)
                        }
                    } else {
                        old_samples[c][k]
                    },
            decreases blocks - iblk,
        {
            proof {
                assert(iblk * subbands + isb < nk) by (nonlinear_arith)
                    requires
                        subbands == sb,
                        iblk < h.blocks,
                        isb < sb,
                        nk == h.blocks * sb,
                ;
            }
            let k = iblk * subbands + isb;
            proof {
                lemma_index(k as int, sb, iblk as int, isb as int);
            }
            let s0 = samples[0][k];
            let s1 = samples[1][k];

            samples[0][k] = (s0 as i32 + s1 as i32) as i16;
            samples[1][k] = (s0 as i32 - s1 as i32) as i16;
            proof {
                assert forall|c: int, j: int|
                    0 <= c < 2 && 0 <= j < 128 implies #[trigger] samples[c][j] == if c
                    < h.spec_channels() && j < nk {
                    if j % sb < isb || (j % sb == isb && j / sb < iblk + 1) {
                        spec_sample_at(d, p0, h, c, j)
                    } else {
                        spec_coded_at(d, p0, h, c, j)
                    }
                } else {
                    old_samples[c][j]
                } by {
                    lemma_fundamental_div_mod(j, sb);
                    if j != k {
                        if j % sb == isb && j / sb == iblk {
                            assert(j == sb * (j / sb) + j % sb);
                            assert(false) by (nonlinear_arith)
                                requires
                                    j == sb * iblk + isb,
                                    k == iblk * sb + isb,
                                    j != k,
                            ;
                        }
                    }
                }
            }
            iblk += 1;
        }
        proof {
            assert forall|c: int, j: int| 0 <= c < 2 && 0 <= j < 128 implies #[trigger] samples[c][j]
                == if c < h.spec_channels() && j < nk {
                if j % sb < isb + 1 {
                    spec_sample_at(d, p0, h, c, j)
                } else {
                    spec_coded_at(d, p0, h, c, j)
                }
            } else {
                old_samples[c][j]
            } by {
                if c < h.spec_channels() && j < nk && j % sb == isb {
                    lemma_fundamental_div_mod(j, sb);
                    assert(j / sb < blocks) by (nonlinear_arith)
                        requires
                            j == sb * (j / sb) + j % sb,
                            0 <= j % sb,
                            j < blocks * sb,
                            sb > 0,
                    ;
                }
            }
        }
        isb += 1;
    }
    proof {
        assert forall|c: int, j: int| 0 <= c < 2 && 0 <= j < 128 implies #[trigger] samples[c][j]
            == if c < h.spec_channels() && j < nk {
            spec_sample_at(d, p0, h, c, j)
        } else {
            old_samples[c][j]
        } by {
            lemma_fundamental_div_mod(j, sb);
        }
    }
}

/// The bit allocation of a frame: each channel on its own in dual channel mode, both
/// together in stereo modes.
#[verifier::spinoff_prover]
fn allocate_bits(
    header: &SbcHeader,
    scale_factors: &[[i32; MAX_SUBBANDS]; 2],
    Ghost(d): Ghost<Seq<u8>>,
    Ghost(p0): Ghost<int>,
) -> (nbits: [[i32; MAX_SUBBANDS]; 2])
    requires
        header.is_valid(),
        *scale_factors == spec_frame_sf(d, p0, *header),
        scale_factors_in_range(*scale_factors, 0, 2, 8),
    ensures
        forall|c: int, isb: int|
            0 <= c < header.spec_channels() && 0 <= isb < header.subbands ==> #[trigger] nbits[c][isb]
                == spec_frame_nbit(d, p0, *header, c, isb),
{
    let ghost h = *header;
    let mut nbits = [[0i32; MAX_SUBBANDS]; 2];
    proof {
        lemma_valid_bitpool(h);
    }
    compute_nbits(header, scale_factors, &mut nbits, 0);
    if header.mode == ChannelMode::DualChannel {
        compute_nbits(header, scale_factors, &mut nbits, 1);
    }
    proof {
        assert forall|c: int, isb: int|
            0 <= c < h.spec_channels() && 0 <= isb < h.subbands implies #[trigger] nbits[c][isb]
            == spec_frame_nbit(d, p0, h, c, isb) by {
            if h.mode != ChannelMode::DualChannel {
                assert(nbits[0 + c][isb] == spec_nbit(h, *scale_factors, 0, c, isb));
            }
        }
    }
    nbits
}

/// Decodes the payload of a frame whose header was read, from its joint-stereo flags to
/// the padding that ends it on a byte boundary.
///
/// Channel `c` of `samples` receives the scaled subband samples, block after block, and
/// `scale[c]` the scale they carry. The padding bits must be zero.
pub fn decode_frame(
    bits: &mut Bits,
    header: &SbcHeader,
    samples: &mut [[i16; MAX_SAMPLES]; MAX_CHANNELS],
    scale: &mut [i32; MAX_CHANNELS],
) -> (r: Result<(), Error>)
    requires
        old(bits).wf(),
        old(bits).mode() == Mode::Read,
        header.is_valid(),
    ensures
        final(bits).wf(),
        final(bits).mode() == Mode::Read,
        final(bits).bytes() == old(bits).bytes(),
        final(bits).error() == old(bits).error(),
        final(bits).position() == spec_samples_end(old(bits).bytes(), old(bits).position() as int, *header)
            + spec_padding_bits(old(bits).bytes(), old(bits).position() as int, *header),
        forall|c: int|
            0 <= c < header.spec_channels() ==> #[trigger] final(scale)[c] == spec_frame_scale(
                old(bits).bytes(),
                old(bits).position() as int,
                *header,
                c,
            ),
        header.spec_channels() == 1 ==> final(scale)[1] == old(scale)[1],
        forall|c: int, k: int|
            0 <= c < 2 && 0 <= k < 128 ==> #[trigger] final(samples)[c][k] == if c
                < header.spec_channels() && k < header.blocks * header.subbands {
                spec_sample_at(old(bits).bytes(), old(bits).position() as int, *header, c, k)
            } else {
                old(samples)[c][k]
            },
        r.is_err() <==> spec_padding_bits(old(bits).bytes(), old(bits).position() as int, *header)
            > 0 && bits_value(
            old(bits).bytes(),
            spec_samples_end(old(bits).bytes(), old(bits).position() as int, *header),
            spec_padding_bits(old(bits).bytes(), old(bits).position() as int, *header) as nat,
        ) != 0,
        r.is_err() ==> r == Err::<(), Error>(Error::BadData(Reason::UnexpectedData)),
{
    let ghost d = bits.bytes();
    let ghost p0 = bits.position() as int;
    let ghost h = *header;

    /* --- Decode joint bands indications --- */
    let mjoint = read_joint(bits, header);

    /* --- Scale factors and bit allocation --- */
    let mut scale_factors = [[0i32; MAX_SUBBANDS]; 2];
    read_scale_factors(bits, header, &mut scale_factors, Ghost(p0));
    let nbits = allocate_bits(header, &scale_factors, Ghost(d), Ghost(p0));

    /* --- Scales and samples --- */
    compute_scales(header, &scale_factors, mjoint, scale, Ghost(d), Ghost(p0));
    read_samples(bits, header, &nbits, &scale_factors, scale, samples, Ghost(p0));

    /* --- Uncoupling "Joint-Stereo" --- */
    proof {
        assert(h.blocks * h.subbands <= 128) by (nonlinear_arith)
            requires
                h.blocks <= 16,
                h.subbands <= 8,
        ;
    }
    uncouple(header, samples, mjoint, Ghost(d), Ghost(p0));

    /* --- Remove padding --- */
    let padding_nbits = 8 - bits.pos() % 8;
    if padding_nbits < 8 {
        let v = bits.get_bits(padding_nbits as u32);
        if v != 0 {
            return Err(Error::BadData(Reason::UnexpectedData));
        }
    }
    Ok(())
}

} // verus!
