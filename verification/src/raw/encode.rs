//! The encoder: scale factors, bit allocation and quantization of the subband samples,
//! and the writing of frames.
use vstd::arithmetic::div_mod::*;
use vstd::arithmetic::logarithm::{lemma_log0, lemma_log_s, log};
use vstd::arithmetic::power2::*;
use vstd::array::{spec_array_fill_for_copy_type, spec_array_update};
use vstd::prelude::*;
use vstd::std_specs::bits::axiom_u32_leading_zeros;

use crate::bits::{
    bits_value, lemma_bits_value_byte, lemma_bits_value_split, lemma_written_bits_read_back,
    stream_bit, Bits, Mode,
};
use crate::decoder::bitalloc::{
    compute_nbits, row_sum, scale_factors_in_range,
    spec_alloc_channels, spec_nbit, spec_nbit_flat,
};
use crate::decoder::crc::{compute_crc, spec_crc_nbit, spec_frame_crc};
use crate::decoder::frame::{
    lemma_i32_shr, lemma_spec_rows, spec_frame_nbit, spec_frame_sf, spec_row_nbits, spec_rows,
    spec_sample_pos,
};
use crate::decoder::synthesize::half;
use crate::raw::analysis::{
    analyze, sbc_estate, spec_analysis_state, spec_subband_sample, AnalysisView,
};
use crate::raw::{
    check_frame, codes_in_range, header_of, lemma_raw_frame_valid, msbc_frame, sbc, sbc_frame,
    sbc_get_frame_size, spec_header_of, spec_msbc_frame, spec_raw_check_frame, spec_raw_decode_ok,
    spec_raw_frame_size, spec_raw_header_fields, spec_raw_payload_bits, spec_sync_ok,
    SBC_MODE_DUAL_CHANNEL, SBC_MODE_JOINT_STEREO, SBC_MODE_MONO,
};

verus! {

/// Whether a header can be written for the parameters `f`: those of mSBC, or defined
/// codes, 4 to 16 blocks by steps of 4, 4 or 8 subbands and a bitpool of 8 bits.
pub open spec fn header_encodable(f: sbc_frame) -> bool {
    f.msbc || {
        &&& codes_in_range(f)
        &&& 4 <= f.nblocks <= 16
        &&& f.nblocks % 4 == 0
        &&& (f.nsubbands == 4 || f.nsubbands == 8)
        &&& 0 <= f.bitpool < 256
    }
}

/// The four bytes of the header of a frame of parameters `f`, first byte most
/// significant, with a zero check byte: for mSBC the sync word `0xad` and zeros, else
/// the sync word `0x9c`, the frequency, blocks, mode, allocation method and subbands
/// codes, and the bitpool.
pub open spec fn spec_header_word(f: sbc_frame) -> nat {
    if f.msbc {
        0xad00_0000
    } else {
        (0x9c00_0000 + f.freq * 0x40_0000 + (f.nblocks / 4 - 1) * 0x10_0000 + f.mode * 0x4_0000
            + f.bam * 0x2_0000 + (f.nsubbands / 4 - 1) * 0x1_0000 + f.bitpool * 0x100) as nat
    }
}

/// Writes the header of a frame of parameters `frame`, with a zero check byte.
fn encode_header(bits: &mut Bits, frame: &sbc_frame)
    requires
        old(bits).wf(),
        old(bits).mode() == Mode::Write,
        header_encodable(*frame),
    ensures
        final(bits).wf(),
        final(bits).mode() == Mode::Write,
        final(bits).error() == old(bits).error(),
        final(bits).bytes().len() == old(bits).bytes().len(),
        final(bits).written_len() == old(bits).written_len() + 32,
        final(bits).written_value() == old(bits).written_value() * pow2(32) + spec_header_word(
            *frame,
        ),
{
    let ghost v0 = bits.written_value();
    proof {
        lemma2_to64();
    }
    if frame.msbc {
        bits.put_bits(0xad, 8);
        bits.put_bits(0, 16);
        assert(bits.written_value() == v0 * 0x100_0000 + 0xad_0000);
    } else {
        let nb = (frame.nblocks / 4 - 1) as u32;
        let ns = (frame.nsubbands / 4 - 1) as u32;
        let bp = frame.bitpool as u32;
        bits.put_bits(0x9c, 8);
        assert(bits.written_value() == v0 * 0x100 + 0x9c);
        bits.put_bits(frame.freq, 2);
        assert(bits.written_value() == v0 * 0x400 + 0x9c * 4 + frame.freq);
        bits.put_bits(nb, 2);
        assert(bits.written_value() == v0 * 0x1000 + 0x9c * 16 + frame.freq * 4 + nb);
        bits.put_bits(frame.mode, 2);
        assert(bits.written_value() == v0 * 0x4000 + 0x9c * 64 + frame.freq * 16 + nb * 4
            + frame.mode);
        bits.put_bits(frame.bam, 1);
        bits.put_bits(ns, 1);
        assert(bits.written_value() == v0 * 0x1_0000 + 0x9c * 256 + frame.freq * 64 + nb * 16
            + frame.mode * 4 + frame.bam * 2 + ns);
        bits.put_bits(bp, 8);
        assert(bits.written_value() == v0 * 0x100_0000 + 0x9c * 0x1_0000 + frame.freq * 0x4000
            + nb * 0x1000 + frame.mode * 0x400 + frame.bam * 0x200 + ns * 0x100 + bp);
    }
    bits.put_bits(0, 8);
}

/// The value of four bytes read as one number, first byte most significant.
proof fn lemma_bits_value_word(d: Seq<u8>)
    requires
        d.len() == 4,
    ensures
        bits_value(d, 0, 32) == d[0] * 0x100_0000 + d[1] * 0x1_0000 + d[2] * 0x100 + d[3] as nat,
{
    lemma2_to64();
    lemma_bits_value_split(d, 0, 8, 24);
    lemma_bits_value_split(d, 8, 8, 16);
    lemma_bits_value_split(d, 16, 8, 8);
    lemma_bits_value_byte(d, 0);
    lemma_bits_value_byte(d, 1);
    lemma_bits_value_byte(d, 2);
    lemma_bits_value_byte(d, 3);
}

/// Reading a header back gives the parameters it was written from: the four bytes whose
/// value is the header of `f` start with a sync word and describe `f`, or the mSBC
/// parameters for an mSBC frame.
pub proof fn lemma_header_read_back(f: sbc_frame, d: Seq<u8>)
    requires
        header_encodable(f),
        d.len() == 4,
        bits_value(d, 0, 32) == spec_header_word(f),
    ensures
        spec_sync_ok(d),
        spec_raw_header_fields(d) == if f.msbc {
            spec_msbc_frame()
        } else {
            f
        },
        d[3] == 0,
{
    lemma_bits_value_word(d);
    let b0 = d[0];
    let b1 = d[1];
    let b2 = d[2];
    let b3 = d[3];
    if f.msbc {
        assert(b0 == 0xad && b1 == 0 && b2 == 0 && b3 == 0);
    } else {
        let nb = (f.nblocks / 4 - 1) as u8;
        let ns = (f.nsubbands / 4 - 1) as u8;
        let fq = f.freq as u8;
        let md = f.mode as u8;
        let bm = f.bam as u8;
        assert(b0 == 0x9c);
        assert(b1 == fq * 64 + nb * 16 + md * 4 + bm * 2 + ns);
        assert(b2 == f.bitpool && b3 == 0);
        assert({
            &&& (b1 >> 6u8) & 3u8 == fq
            &&& (b1 >> 4u8) & 3u8 == nb
            &&& (b1 >> 2u8) & 3u8 == md
            &&& (b1 >> 1u8) & 1u8 == bm
            &&& b1 & 1u8 == ns
        }) by (bit_vector)
            requires
                fq < 4,
                nb < 4,
                md < 4,
                bm < 2,
                ns < 2,
                b1 == fq * 64 + nb * 16 + md * 4 + bm * 2 + ns,
        ;
        assert(spec_raw_header_fields(d) == f);
    }
}

/// The bound of a sample's magnitude: the sample, or its complement `-s - 1` when it is
/// negative.
pub open spec fn spec_magnitude(s: int) -> int {
    if s < 0 {
        -s - 1
    } else {
        s
    }
}

/// The value that subband `isb` of block `j` contributes to a scale factor: the sample of
/// channel 0 or 1 for `kind` 0 or 1, the sum of both for `kind` 2, their difference for
/// `kind` 3.
pub open spec fn spec_scf_value(sb: [[i16; 128]; 2], kind: int, nsb: int, isb: int, j: int) -> int {
    let s0 = sb[0][j * nsb + isb] as int;
    let s1 = sb[1][j * nsb + isb] as int;
    if kind == 0 {
        s0
    } else if kind == 1 {
        s1
    } else if kind == 2 {
        s0 + s1
    } else {
        s0 - s1
    }
}

/// The bitwise or of the magnitudes of the values of subband `isb` of the first `b` blocks.
pub open spec fn spec_or_magnitude(sb: [[i16; 128]; 2], kind: int, nsb: int, isb: int, b: nat) -> u32
    decreases b,
{
    if b == 0 {
        0
    } else {
        spec_or_magnitude(sb, kind, nsb, isb, (b - 1) as nat) | (spec_magnitude(
            spec_scf_value(sb, kind, nsb, isb, b - 1),
        ) as u32)
    }
}

/// The scale factor of values whose magnitudes, or-ed together, give `m`: the position
/// of the highest bit set in `m`, or 0 when there is none.
pub open spec fn spec_scale_of(m: u32) -> int {
    if m == 0 {
        0
    } else {
        log(2, m as int)
    }
}

/// The scale factor of subband `isb` over `nblocks` blocks, for a `kind` of values.
pub open spec fn spec_scf(sb: [[i16; 128]; 2], kind: int, nblocks: int, nsb: int, isb: int) -> int {
    spec_scale_of(spec_or_magnitude(sb, kind, nsb, isb, nblocks as nat))
}

/// The integer logarithm of a value between two consecutive powers of two.
proof fn lemma_log2_between(m: int, k: nat)
    requires
        pow2(k) <= m < pow2(k + 1),
    ensures
        log(2, m) == k,
    decreases k,
{
    lemma_pow2_unfold(k + 1);
    lemma_pow2_pos(k);
    if k == 0 {
        lemma2_to64();
        lemma_log0(2, m);
    } else {
        lemma_pow2_unfold(k);
        lemma_log_s(2, m);
        lemma_log2_between(m / 2, (k - 1) as nat);
    }
}

/// The scale factor of a bitwise or of magnitudes: the position of its highest bit set.
fn scale_of(m: u32) -> (r: i32)
    ensures
        r == spec_scale_of(m),
        0 <= r < 32,
        m < 0x1_0000 ==> r <= 15,
{
    if m == 0 {
        return 0;
    }
    let lz = m.leading_zeros();
    proof {
        axiom_u32_leading_zeros(m);
        let k = (31 - lz) as u32;
        vstd::bits::lemma_u32_shr_is_div(m, k);
        assert((m >> k) & 1u32 != 0u32 ==> (m >> k) != 0u32) by (bit_vector);
        lemma_pow2_pos(k as nat);
        lemma_pow2_pos((k + 1) as nat);
        assert(m as nat >= pow2(k as nat)) by {
            assert(m as nat / pow2(k as nat) >= 1);
            lemma_fundamental_div_mod(m as int, pow2(k as nat) as int);
            assert(m as int == pow2(k as nat) * (m as int / pow2(k as nat) as int) + m as int % pow2(k as nat) as int);
            vstd::arithmetic::mul::lemma_mul_inequality(1, m as int / pow2(k as nat) as int, pow2(k as nat) as int);
        }
        if k < 31 {
            vstd::bits::lemma_u32_shr_is_div(m, (k + 1) as u32);
            assert(m as nat / pow2((k + 1) as nat) == 0);
            lemma_fundamental_div_mod(m as int, pow2((k + 1) as nat) as int);
        } else {
            lemma2_to64();
        }
        lemma_log2_between(m as int, k as nat);
        if k >= 16 {
            lemma_pow2_strictly_increases(15, k as nat);
            lemma2_to64();
        }
    }
    31 - lz as i32
}

/// The magnitude of a subband sample, as the complement of a negative one.
fn magnitude(s: i32) -> (r: u32)
    requires
        -0x1_0000 <= s <= 0x1_0000,
    ensures
        r == spec_magnitude(s as int),
{
    if s < 0 {
        assert(!s == -s - 1) by (bit_vector)
            requires
                s < 0,
        ;
        (!s) as u32
    } else {
        s as u32
    }
}

/// The number of channels of a frame of mode `mode`.
pub open spec fn spec_nchannels(mode: u32) -> int {
    if mode != SBC_MODE_MONO {
        2
    } else {
        1
    }
}

/// Whether the subband samples of a frame fit the buffers: 1 to 16 blocks of 4 or 8
/// subbands.
pub open spec fn blocks_fit(f: sbc_frame) -> bool {
    &&& 1 <= f.nblocks <= 16
    &&& (f.nsubbands == 4 || f.nsubbands == 8)
}

/// The or of the magnitudes of the samples of subband `isb` of the `nblocks` blocks, for
/// a `kind` of values.
fn or_magnitude(sb: &[[i16; 128]; 2], kind: usize, nblocks: usize, nsb: usize, isb: usize) -> (r: u32)
    requires
        kind < 4,
        1 <= nblocks <= 16,
        nsb == 4 || nsb == 8,
        isb < nsb,
    ensures
        r == spec_or_magnitude(*sb, kind as int, nsb as int, isb as int, nblocks as nat),
        r < 0x1_0000,
{
    let mut m: u32 = 0;
    let mut iblk: usize = 0;
    while iblk < nblocks
        invariant
            iblk <= nblocks <= 16,
            kind < 4,
            nsb == 4 || nsb == 8,
            isb < nsb,
            m == spec_or_magnitude(*sb, kind as int, nsb as int, isb as int, iblk as nat),
            m < 0x1_0000,
        decreases nblocks - iblk,
    {
        assert(iblk * nsb + isb < 128) by (nonlinear_arith)
            requires
                iblk < 16,
                nsb <= 8,
                isb < nsb,
        ;
        let i = iblk * nsb + isb;
        let s0 = sb[0][i] as i32;
        let s1 = sb[1][i] as i32;
        let s = if kind == 0 {
            s0
        } else if kind == 1 {
            s1
        } else if kind == 2 {
            s0 + s1
        } else {
            s0 - s1
        };
        let g = magnitude(s);
        assert(m | g < 0x1_0000) by (bit_vector)
            requires
                m < 0x1_0000,
                g < 0x1_0000,
        ;
        m = m | g;
        iblk += 1;
    }
    m
}

/// Computes the scale factor of each subband of each channel of a frame.
fn compute_scale_factors(frame: &sbc_frame, sb: &[[i16; 128]; 2], scale_factors: &mut [[i32; 8]; 2])
    requires
        blocks_fit(*frame),
    ensures
        forall|ch: int, isb: int|
            0 <= ch < spec_nchannels(frame.mode) && 0 <= isb < frame.nsubbands
                ==> #[trigger] final(scale_factors)[ch][isb] == spec_scf(
                *sb,
                ch,
                frame.nblocks as int,
                frame.nsubbands as int,
                isb,
            ),
        forall|ch: int, isb: int|
            0 <= ch < 2 && 0 <= isb < 8 && !(ch < spec_nchannels(frame.mode) && isb
                < frame.nsubbands) ==> #[trigger] final(scale_factors)[ch][isb] == old(
                scale_factors,
            )[ch][isb],
        scale_factors_in_range(
            *final(scale_factors),
            0,
            spec_nchannels(frame.mode),
            frame.nsubbands as int,
        ),
{
    let ghost sf0 = *scale_factors;
    let nch: usize = if frame.mode != SBC_MODE_MONO {
        2
    } else {
        1
    };
    let nblocks = frame.nblocks as usize;
    let nsb = frame.nsubbands as usize;
    let mut ich: usize = 0;
    while ich < nch
        invariant
            ich <= nch,
            nch == spec_nchannels(frame.mode),
            nblocks == frame.nblocks,
            nsb == frame.nsubbands,
            blocks_fit(*frame),
            forall|ch: int, isb: int|
                0 <= ch < ich && 0 <= isb < nsb ==> #[trigger] scale_factors[ch][isb] == spec_scf(
                    *sb,
                    ch,
                    nblocks as int,
                    nsb as int,
                    isb,
                ),
            forall|ch: int, isb: int|
                0 <= ch < 2 && 0 <= isb < 8 && !(ch < ich && isb < nsb)
                    ==> #[trigger] scale_factors[ch][isb] == sf0[ch][isb],
            scale_factors_in_range(*scale_factors, 0, ich as int, nsb as int),
        decreases nch - ich,
    {
        let mut isb: usize = 0;
        while isb < nsb
            invariant
                ich < nch,
                nch == spec_nchannels(frame.mode),
                isb <= nsb,
                nblocks == frame.nblocks,
                nsb == frame.nsubbands,
                blocks_fit(*frame),
                forall|ch: int, s: int|
                    0 <= ch < 2 && 0 <= s < nsb && (ch < ich || (ch == ich && s < isb))
                        ==> #[trigger] scale_factors[ch][s] == spec_scf(
                        *sb,
                        ch,
                        nblocks as int,
                        nsb as int,
                        s,
                    ),
                forall|ch: int, s: int|
                    0 <= ch < 2 && 0 <= s < 8 && !((ch < ich && s < nsb) || (ch == ich && s < isb))
                        ==> #[trigger] scale_factors[ch][s] == sf0[ch][s],
                forall|ch: int, s: int|
                    0 <= ch < 2 && 0 <= s < nsb && (ch < ich || (ch == ich && s < isb))
                        ==> 0 <= #[trigger] scale_factors[ch][s] <= 15,
            decreases nsb - isb,
        {
            let m = or_magnitude(sb, ich, nblocks, nsb, isb);
            scale_factors[ich][isb] = scale_of(m);
            isb += 1;
        }
        ich += 1;
    }
}

/// Whether subband `isb` of a joint-stereo frame is coded as sum and difference: never
/// the last one, else when their scale factors add to less than those of the channels.
pub open spec fn spec_joint(sb: [[i16; 128]; 2], nblocks: int, nsb: int, isb: int) -> bool {
    &&& isb < nsb - 1
    &&& spec_scf(sb, 2, nblocks, nsb, isb) + spec_scf(sb, 3, nblocks, nsb, isb) < spec_scf(
        sb,
        0,
        nblocks,
        nsb,
        isb,
    ) + spec_scf(sb, 1, nblocks, nsb, isb)
}

/// The scale factor of channel `ch`, subband `isb`, of a joint-stereo frame: that of the
/// sum (channel 0) or difference (channel 1) on joint subbands, else that of the channel.
pub open spec fn spec_js_scf(sb: [[i16; 128]; 2], ch: int, nblocks: int, nsb: int, isb: int) -> int {
    if spec_joint(sb, nblocks, nsb, isb) {
        spec_scf(sb, ch + 2, nblocks, nsb, isb)
    } else {
        spec_scf(sb, ch, nblocks, nsb, isb)
    }
}

/// Bit `i` of `m`, one for set.
pub open spec fn spec_bit(m: u32, i: int) -> bool {
    (m >> (i as u32)) & 1u32 == 1u32
}

/// Setting bit `k` of `m` changes no other bit.
proof fn lemma_set_bit(m: u32, k: u32, i: u32)
    by (bit_vector)
    requires
        k < 32,
        i < 32,
    ensures
        ((m | (1u32 << k)) >> i) & 1u32 == 1u32 <==> (i == k || (m >> i) & 1u32 == 1u32),
{
}

/// A bit is one or zero, and no bit of zero is set.
proof fn lemma_bit_facts()
    by (bit_vector)
    ensures
        forall|m: u32, i: u32| #[trigger] ((m >> i) & 1u32) == 1u32 || (m >> i) & 1u32 == 0u32,
        forall|i: u32| #[trigger] (0u32 >> i) & 1u32 == 0u32,
{
}

/// Computes the scale factors of a joint-stereo frame, and in `mjoint` the subbands
/// coded as sum and difference, one bit each.
fn compute_scale_factors_js(
    frame: &sbc_frame,
    sb: &[[i16; 128]; 2],
    scale_factors: &mut [[i32; 8]; 2],
    mjoint: &mut u32,
)
    requires
        blocks_fit(*frame),
    ensures
        forall|ch: int, isb: int|
            0 <= ch < 2 && 0 <= isb < frame.nsubbands ==> #[trigger] final(scale_factors)[ch][isb]
                == spec_js_scf(*sb, ch, frame.nblocks as int, frame.nsubbands as int, isb),
        forall|ch: int, isb: int|
            0 <= ch < 2 && frame.nsubbands <= isb < 8 ==> #[trigger] final(scale_factors)[ch][isb]
                == old(scale_factors)[ch][isb],
        forall|i: int|
            0 <= i < 32 ==> #[trigger] spec_bit(*final(mjoint), i) == (i < frame.nsubbands
                && spec_joint(*sb, frame.nblocks as int, frame.nsubbands as int, i)),
        scale_factors_in_range(*final(scale_factors), 0, 2, frame.nsubbands as int),
{
    let ghost sf0 = *scale_factors;
    let nblocks = frame.nblocks as usize;
    let nsb = frame.nsubbands as usize;
    *mjoint = 0;
    assert forall|i: int| 0 <= i < 32 implies !#[trigger] spec_bit(0u32, i) by {
        lemma_bit_facts();
        assert((0u32 >> (i as u32)) & 1u32 == 0u32);
    }
    let mut isb: usize = 0;
    while isb < nsb
        invariant
            isb <= nsb,
            nblocks == frame.nblocks,
            nsb == frame.nsubbands,
            blocks_fit(*frame),
            forall|ch: int, s: int|
                0 <= ch < 2 && 0 <= s < isb ==> #[trigger] scale_factors[ch][s] == spec_js_scf(
                    *sb,
                    ch,
                    nblocks as int,
                    nsb as int,
                    s,
                ),
            forall|ch: int, s: int|
                0 <= ch < 2 && isb <= s < 8 ==> #[trigger] scale_factors[ch][s] == sf0[ch][s],
            scale_factors_in_range(*scale_factors, 0, 2, isb as int),
            forall|i: int|
                0 <= i < 32 ==> #[trigger] spec_bit(*mjoint, i) == (i < isb && spec_joint(
                    *sb,
                    nblocks as int,
                    nsb as int,
                    i,
                )),
        decreases nsb - isb,
    {
        let mut scf0 = scale_of(or_magnitude(sb, 0, nblocks, nsb, isb));
        let mut scf1 = scale_of(or_magnitude(sb, 1, nblocks, nsb, isb));
        let js0 = scale_of(or_magnitude(sb, 2, nblocks, nsb, isb));
        let js1 = scale_of(or_magnitude(sb, 3, nblocks, nsb, isb));
        let ghost m0 = *mjoint;
        let joint = isb < nsb - 1 && js0 + js1 < scf0 + scf1;
        assert(joint == spec_joint(*sb, nblocks as int, nsb as int, isb as int));
        if joint {
            *mjoint = *mjoint | (1u32 << (isb as u32));
            scf0 = js0;
            scf1 = js1;
        }
        proof {
            assert forall|i: int| 0 <= i < 32 implies #[trigger] spec_bit(*mjoint, i) == (i < isb + 1
                && spec_joint(*sb, nblocks as int, nsb as int, i)) by {
                if joint {
                    lemma_set_bit(m0, isb as u32, i as u32);
                }
                assert(spec_bit(m0, i) == (i < isb && spec_joint(*sb, nblocks as int, nsb as int, i)));
            }
        }
        scale_factors[0][isb] = scf0;
        scale_factors[1][isb] = scf1;
        isb += 1;
    }
}

/// The flags of the first `k` subbands, first subband most significant: bit `i` of `m`
/// for subband `i`.
pub open spec fn spec_joint_field(m: u32, k: nat) -> nat
    decreases k,
{
    if k == 0 {
        0
    } else {
        2 * spec_joint_field(m, (k - 1) as nat) + if spec_bit(m, k - 1) {
            1nat
        } else {
            0nat
        }
    }
}

/// The joint-stereo flags of `nsb` subbands as a field of `nsb` bits, first subband
/// most significant; the flag of the last subband is never set.
fn joint_field(m: u32, nsb: usize) -> (r: u32)
    requires
        nsb == 4 || nsb == 8,
        !spec_bit(m, nsb - 1),
    ensures
        r == spec_joint_field(m, nsb as nat),
{
    proof {
        reveal_with_fuel(spec_joint_field, 9);
    }
    if nsb == 4 {
        let r = (m & 0x1) << 3 | (m & 0x2) << 1 | (m & 0x4) >> 1 | (0 >> 3);
        assert(r == 8 * ((m >> 0u32) & 1u32) + 4 * ((m >> 1u32) & 1u32) + 2 * ((m >> 2u32) & 1u32)
            + ((m >> 3u32) & 1u32)) by (bit_vector)
            requires
                r == (m & 0x1) << 3 | (m & 0x2) << 1 | (m & 0x4) >> 1 | (0u32 >> 3u32),
                (m >> 3u32) & 1u32 != 1u32,
        ;
        proof {
            lemma_bit_facts();
        }
        r
    } else {
        let r = (m & 0x01) << 7 | (m & 0x02) << 5 | (m & 0x04) << 3 | (m & 0x08) << 1 | (m & 0x10) >> 1
            | (m & 0x20) >> 3 | (m & 0x40) >> 5 | (0 >> 7);
        assert(r == 128 * ((m >> 0u32) & 1u32) + 64 * ((m >> 1u32) & 1u32) + 32 * ((m >> 2u32) & 1u32)
            + 16 * ((m >> 3u32) & 1u32) + 8 * ((m >> 4u32) & 1u32) + 4 * ((m >> 5u32) & 1u32) + 2 * (
        (m >> 6u32) & 1u32) + ((m >> 7u32) & 1u32)) by (bit_vector)
            requires
                r == (m & 0x01) << 7 | (m & 0x02) << 5 | (m & 0x04) << 3 | (m & 0x08) << 1 | (m
                    & 0x10) >> 1 | (m & 0x20) >> 3 | (m & 0x40) >> 5 | (0u32 >> 7u32),
                (m >> 7u32) & 1u32 != 1u32,
        ;
        proof {
            lemma_bit_facts();
        }
        r
    }
}

/// The scale factors of the first `k` positions, channel by channel, four bits each,
/// first most significant.
pub open spec fn spec_sf_fields(sf: [[i32; 8]; 2], nsb: int, k: nat) -> nat
    decreases k,
{
    if k == 0 {
        0
    } else {
        let t = k - 1;
        spec_sf_fields(sf, nsb, (k - 1) as nat) * 16 + sf[t / nsb][t % nsb] as nat
    }
}

/// Writes the scale factors of the `nch` channels, four bits each.
fn put_scale_factors(bits: &mut Bits, sf: &[[i32; 8]; 2], nch: usize, nsb: usize)
    requires
        old(bits).wf(),
        old(bits).mode() == Mode::Write,
        1 <= nch <= 2,
        nsb == 4 || nsb == 8,
        scale_factors_in_range(*sf, 0, nch as int, nsb as int),
    ensures
        final(bits).wf(),
        final(bits).mode() == Mode::Write,
        final(bits).error() == old(bits).error(),
        final(bits).bytes().len() == old(bits).bytes().len(),
        final(bits).written_len() == old(bits).written_len() + 4 * (nch * nsb),
        final(bits).written_value() == old(bits).written_value() * pow2((4 * (nch * nsb)) as nat)
            + spec_sf_fields(*sf, nsb as int, (nch * nsb) as nat),
{
    let ghost len0 = bits.written_len();
    let ghost v0 = bits.written_value();
    proof {
        lemma2_to64();
        assert(v0 * pow2(0) == v0) by (nonlinear_arith)
            requires
                pow2(0) == 1,
        ;
    }
    assert(nch * nsb <= 16) by (nonlinear_arith)
        requires
            nch <= 2,
            nsb <= 8,
    ;
    let total = nch * nsb;
    let mut t: usize = 0;
    while t < total
        invariant
            t <= total == nch * nsb,
            nch <= 2,
            nsb == 4 || nsb == 8,
            scale_factors_in_range(*sf, 0, nch as int, nsb as int),
            bits.wf(),
            bits.mode() == Mode::Write,
            bits.error() == old(bits).error(),
            bits.bytes().len() == old(bits).bytes().len(),
            bits.written_len() == len0 + 4 * t,
            bits.written_value() == v0 * pow2((4 * t) as nat) + spec_sf_fields(
                *sf,
                nsb as int,
                t as nat,
            ),
        decreases total - t,
    {
        let ghost before = bits.written_value();
        let ich = t / nsb;
        let isb = t % nsb;
        assert(ich < nch) by (nonlinear_arith)
            requires
                t < nch * nsb,
                ich == t / nsb,
                nsb > 0,
        ;
        let v = sf[ich][isb];
        bits.put_bits(v as u32, 4);
        proof {
            lemma2_to64();
            lemma_pow2_adds((4 * t) as nat, 4);
            assert(v0 * pow2((4 * t + 4) as nat) == v0 * pow2((4 * t) as nat) * 16) by (nonlinear_arith)
                requires
                    pow2((4 * t + 4) as nat) == pow2((4 * t) as nat) * pow2(4),
                    pow2(4) == 16,
            ;
            assert(bits.written_value() == before * 16 + v as nat);
        }
        t += 1;
    }
}


/// Sample `i` of channel `ch` of a frame once its joint subbands (those whose bit is set
/// in `m`) are coded as half sum (channel 0) and half difference (channel 1).
pub open spec fn spec_coded_sample(
    sb: [[i16; 128]; 2],
    m: u32,
    nblocks: int,
    nsb: int,
    ch: int,
    i: int,
) -> i16 {
    let s0 = sb[0][i] as int;
    let s1 = sb[1][i] as int;
    if i < nblocks * nsb && spec_bit(m, i % nsb) {
        if ch == 0 {
            ((s0 + s1) / 2) as i16
        } else {
            ((s0 - s1) / 2) as i16
        }
    } else {
        sb[ch][i]
    }
}

/// The index of subband `isb` in the block of `n` subbands from `b * n`.
proof fn lemma_index_in_block(j: int, n: int, b: int, isb: int)
    requires
        n > 0,
        0 <= isb < n,
        j % n == isb,
        b * n <= j < (b + 1) * n,
    ensures
        j == b * n + isb,
{
    lemma_fundamental_div_mod(j, n);
    let q = j / n;
    if q > b {
        vstd::arithmetic::mul::lemma_mul_inequality(b + 1, q, n);
        assert((b + 1) * n <= q * n);
        assert(q * n == n * q) by (nonlinear_arith);
    } else if q < b {
        vstd::arithmetic::mul::lemma_mul_inequality(q + 1, b, n);
        assert((q + 1) * n == q * n + n) by (nonlinear_arith);
        assert(q * n == n * q) by (nonlinear_arith);
    } else {
        assert(b * n == n * q) by (nonlinear_arith)
            requires
                q == b,
        ;
    }
}

/// Codes the joint subbands of `sb`, those whose bit is set in `m`, as half sum and half
/// difference of the channels.
fn joint_transform(sb: &mut [[i16; 128]; 2], m: u32, nblocks: usize, nsb: usize)
    requires
        1 <= nblocks <= 16,
        nsb == 4 || nsb == 8,
    ensures
        forall|ch: int, i: int|
            0 <= ch < 2 && 0 <= i < 128 ==> #[trigger] final(sb)[ch][i] == spec_coded_sample(
                *old(sb),
                m,
                nblocks as int,
                nsb as int,
                ch,
                i,
            ),
{
    let ghost sb0 = *sb;
    let mut isb: usize = 0;
    while isb < nsb
        invariant
            isb <= nsb,
            1 <= nblocks <= 16,
            nsb == 4 || nsb == 8,
            forall|ch: int, i: int|
                0 <= ch < 2 && 0 <= i < 128 ==> #[trigger] sb[ch][i] == if i % (nsb as int) < isb {
                    spec_coded_sample(sb0, m, nblocks as int, nsb as int, ch, i)
                } else {
                    sb0[ch][i]
                },
        decreases nsb - isb,
    {
        let joint = (m >> (isb as u32)) & 1 != 0;
        assert(joint == spec_bit(m, isb as int)) by {
            let k = isb as u32;
            lemma_bit_facts();
            assert((m >> k) & 1u32 == 1u32 || (m >> k) & 1u32 == 0u32);
        }
        if joint {
            let mut iblk: usize = 0;
            while iblk < nblocks
                invariant
                    iblk <= nblocks <= 16,
                    isb < nsb,
                    nsb == 4 || nsb == 8,
                    spec_bit(m, isb as int),
                    forall|ch: int, i: int|
                        0 <= ch < 2 && 0 <= i < 128 ==> #[trigger] sb[ch][i] == if i % (nsb as int)
                            < isb || (i % (nsb as int) == isb && i < iblk * nsb) {
                            spec_coded_sample(sb0, m, nblocks as int, nsb as int, ch, i)
                        } else {
                            sb0[ch][i]
                        },
                decreases nblocks - iblk,
            {
                assert(iblk * nsb + isb < 128 && iblk * nsb + isb < (iblk + 1) * nsb) by (nonlinear_arith)
                    requires
                        iblk < 16,
                        nsb <= 8,
                        isb < nsb,
                ;
                let i = iblk * nsb + isb;
                proof {
                    lemma_fundamental_div_mod_converse(i as int, nsb as int, iblk as int, isb as int);
                }
                let s0 = sb[0][i] as i32;
                let s1 = sb[1][i] as i32;
                let a = half(s0 + s1) as i16;
                let b = half(s0 - s1) as i16;
                sb[0][i] = a;
                sb[1][i] = b;
                proof {
                    assert forall|ch: int, j: int| 0 <= ch < 2 && 0 <= j < 128 implies #[trigger] sb[ch][j]
                        == if j % (nsb as int) < isb || (j % (nsb as int) == isb && j < (iblk + 1)
                        * nsb) {
                        spec_coded_sample(sb0, m, nblocks as int, nsb as int, ch, j)
                    } else {
                        sb0[ch][j]
                    } by {
                        if j % (nsb as int) == isb && j < (iblk + 1) * nsb && j >= iblk * nsb {
                            lemma_index_in_block(j, nsb as int, iblk as int, isb as int);
                        }
                        if j % (nsb as int) == isb && j < nblocks * nsb {
                            assert(spec_bit(m, j % (nsb as int)));
                        }
                    }
                }
                iblk += 1;
            }
            assert forall|ch: int, i: int| 0 <= ch < 2 && 0 <= i < 128 && i % (nsb as int) == isb
                && i >= nblocks * nsb implies #[trigger] spec_coded_sample(sb0, m, nblocks as int, nsb as int, ch, i) == sb0[ch][i] by {
            }
        } else {
            assert forall|ch: int, i: int| 0 <= ch < 2 && 0 <= i < 128 && i % (nsb as int) == isb
                implies #[trigger] spec_coded_sample(sb0, m, nblocks as int, nsb as int, ch, i) == sb0[ch][i] by {
            }
        }
        isb += 1;
    }
}

/// The quantization of sample `s` of a subband of scale factor `scf` on `nbit` bits: `s`
/// scaled from `(-2^(scf+1), 2^(scf+1))` to `(0, 2^nbit - 1)`, rounded down.
pub open spec fn spec_quantize(s: int, scf: int, nbit: int) -> int {
    let range = pow2(nbit as nat) - 1;
    ((s * range) / (pow2((scf + 1) as nat) as int) + range) / 2
}

/// A 32-bit value cast to unsigned keeps its low bits.
proof fn lemma_cast_low_bits(q: i32, n: nat)
    requires
        n <= 32,
    ensures
        ((q as u32) as int) % (pow2(n) as int) == (q as int) % (pow2(n) as int),
{
    assert((q < 0 ==> (q as u32) as int == q as int + 0x1_0000_0000) && (q >= 0 ==> (q as u32) as int
        == q as int)) by (bit_vector);
    if q < 0 {
        lemma_pow2_adds(n, (32 - n) as nat);
        lemma2_to64();
        lemma_pow2_pos(n);
        lemma_mod_multiples_vanish(pow2((32 - n) as nat) as int, q as int, pow2(n) as int);
        assert(pow2((32 - n) as nat) * pow2(n) == 0x1_0000_0000) by (nonlinear_arith)
            requires
                pow2(n) * pow2((32 - n) as nat) == pow2(32),
                pow2(32) == 0x1_0000_0000,
        ;
    }
}

/// Quantizes sample `s` on `nbit` bits; the low `nbit` bits of the result are those of
/// the quantized value.
fn quantize(s: i16, scf: i32, nbit: i32) -> (r: u32)
    requires
        0 <= scf <= 15,
        1 <= nbit <= 16,
    ensures
        (r as int) % (pow2(nbit as nat) as int) == spec_quantize(s as int, scf as int, nbit as int)
            % (pow2(nbit as nat) as int),
{
    proof {
        lemma2_to64();
        lemma_pow2_strictly_increases(nbit as nat, 32);
        vstd::bits::lemma_u32_shl_is_mul(1u32, nbit as u32);
        lemma_pow2_pos(nbit as nat);
        if nbit < 16 {
            lemma_pow2_strictly_increases(nbit as nat, 16);
        }
    }
    let range = ((1u32 << (nbit as u32)) - 1) as i32;
    assert(range == pow2(nbit as nat) - 1);
    assert(-0x8000 * 0xffff <= (s as int) * (range as int) <= 0x7fff * 0xffff) by (nonlinear_arith)
        requires
            -0x8000 <= s <= 0x7fff,
            0 <= range <= 0xffff,
    ;
    let p = (s as i32) * range;
    proof {
        lemma_i32_shr(p, (scf + 1) as u32);
        lemma_pow2_pos((scf + 1) as nat);
    }
    let a = p >> ((scf + 1) as u32);
    assert(-0x8000 * 0xffff <= a <= 0x7fff * 0xffff) by (nonlinear_arith)
        requires
            a == (p as int) / (pow2((scf + 1) as nat) as int),
            pow2((scf + 1) as nat) >= 1,
            -0x8000 * 0xffff <= p <= 0x7fff * 0xffff,
    ;
    let b = a + range;
    proof {
        lemma_i32_shr(b, 1);
    }
    let q = b >> 1;
    proof {
        lemma_cast_low_bits(q, nbit as nat);
    }
    q as u32
}

/// The fields of the samples of the first `k` positions, block by block, channel by
/// channel, subband by subband: the quantization of each sample of `nbit > 0` bits, first
/// most significant, and their number of bits.
pub open spec fn spec_sample_fields(
    sb: [[i16; 128]; 2],
    sf: [[i32; 8]; 2],
    nbits: [[i32; 8]; 2],
    nch: int,
    nsb: int,
    k: nat,
) -> (nat, nat)
    decreases k,
{
    if k == 0 {
        (0, 0)
    } else {
        let p = spec_sample_fields(sb, sf, nbits, nch, nsb, (k - 1) as nat);
        let t = k - 1;
        let isb = t % nsb;
        let ich = (t / nsb) % nch;
        let iblk = (t / nsb) / nch;
        let nbit = nbits[ich][isb] as int;
        if nbit > 0 {
            (
                p.0 * pow2(nbit as nat) + (spec_quantize(
                    sb[ich][iblk * nsb + isb] as int,
                    sf[ich][isb] as int,
                    nbit,
                ) % (pow2(nbit as nat) as int)) as nat,
                p.1 + nbit as nat,
            )
        } else {
            p
        }
    }
}

/// The number of bits of the samples are at most 16.
pub open spec fn nbits_in_range(nbits: [[i32; 8]; 2], nch: int, nsb: int) -> bool {
    forall|c: int, s: int| 0 <= c < nch && 0 <= s < nsb ==> 0 <= #[trigger] nbits[c][s] <= 16
}

/// Writes the quantized samples of `nblocks` blocks of `nch` channels.
fn put_samples(
    bits: &mut Bits,
    sb: &[[i16; 128]; 2],
    sf: &[[i32; 8]; 2],
    nbits: &[[i32; 8]; 2],
    nblocks: usize,
    nch: usize,
    nsb: usize,
)
    requires
        old(bits).wf(),
        old(bits).mode() == Mode::Write,
        1 <= nblocks <= 16,
        1 <= nch <= 2,
        nsb == 4 || nsb == 8,
        scale_factors_in_range(*sf, 0, nch as int, nsb as int),
        nbits_in_range(*nbits, nch as int, nsb as int),
    ensures
        final(bits).wf(),
        final(bits).mode() == Mode::Write,
        final(bits).error() == old(bits).error(),
        final(bits).bytes().len() == old(bits).bytes().len(),
        ({
            let f = spec_sample_fields(*sb, *sf, *nbits, nch as int, nsb as int, (nblocks * nch * nsb) as nat);
            &&& final(bits).written_len() == old(bits).written_len() + f.1
            &&& final(bits).written_value() == old(bits).written_value() * pow2(f.1) + f.0
        }),
{
    let ghost len0 = bits.written_len();
    let ghost v0 = bits.written_value();
    proof {
        lemma2_to64();
        assert(v0 * pow2(0) == v0) by (nonlinear_arith)
            requires
                pow2(0) == 1,
        ;
    }
    assert(nblocks * nch * nsb <= 256) by (nonlinear_arith)
        requires
            nblocks <= 16,
            nch <= 2,
            nsb <= 8,
    ;
    let total = nblocks * nch * nsb;
    let mut t: usize = 0;
    while t < total
        invariant
            t <= total == nblocks * nch * nsb,
            1 <= nblocks <= 16,
            1 <= nch <= 2,
            nsb == 4 || nsb == 8,
            scale_factors_in_range(*sf, 0, nch as int, nsb as int),
            nbits_in_range(*nbits, nch as int, nsb as int),
            bits.wf(),
            bits.mode() == Mode::Write,
            bits.error() == old(bits).error(),
            bits.bytes().len() == old(bits).bytes().len(),
            ({
                let f = spec_sample_fields(*sb, *sf, *nbits, nch as int, nsb as int, t as nat);
                &&& bits.written_len() == len0 + f.1
                &&& bits.written_value() == v0 * pow2(f.1) + f.0
            }),
        decreases total - t,
    {
        let ghost p = spec_sample_fields(*sb, *sf, *nbits, nch as int, nsb as int, t as nat);
        let isb = t % nsb;
        let ich = (t / nsb) % nch;
        let iblk = (t / nsb) / nch;
        assert(iblk * nsb + isb < 128) by (nonlinear_arith)
            requires
                t < nblocks * nch * nsb,
                iblk == (t / nsb) / nch,
                isb < nsb,
                nblocks <= 16,
                nsb <= 8,
                nch >= 1,
        ;
        let nbit = nbits[ich][isb];
        if nbit > 0 {
            let q = quantize(sb[ich][iblk * nsb + isb], sf[ich][isb], nbit);
            let ghost before = bits.written_value();
            bits.put_bits(q, nbit as u32);
            proof {
                let n = nbit as nat;
                lemma_pow2_adds(p.1, n);
                assert(v0 * pow2(p.1 + n) == v0 * pow2(p.1) * pow2(n)) by (nonlinear_arith)
                    requires
                        pow2(p.1 + n) == pow2(p.1) * pow2(n),
                ;
                assert((v0 * pow2(p.1) + p.0) * pow2(n) == v0 * pow2(p.1) * pow2(n) + p.0 * pow2(n))
                    by (nonlinear_arith);
            }
        }
        t += 1;
    }
}

/// Whether a frame of parameters `f` can be encoded: defined codes, valid parameters and
/// a bitpool that is not negative.
pub open spec fn frame_encodable(f: sbc_frame) -> bool {
    &&& codes_in_range(f)
    &&& spec_raw_check_frame(f)
    &&& f.bitpool >= 0
}

/// Whether subband `isb` of a frame of parameters `f` and subband samples `sb` is coded as
/// sum and difference.
pub open spec fn spec_is_joint(f: sbc_frame, sb: [[i16; 128]; 2], isb: int) -> bool {
    f.mode == SBC_MODE_JOINT_STEREO && spec_joint(sb, f.nblocks as int, f.nsubbands as int, isb)
}

/// The scale factors of a frame: those of a joint-stereo frame, or of each channel; zero
/// past the channels and subbands of the frame.
#[verifier::opaque]
pub open spec fn spec_frame_scale_factors(f: sbc_frame, sb: [[i16; 128]; 2]) -> [[i32; 8]; 2] {
    spec_rows(
        |c: int, s: int|
            if c < spec_nchannels(f.mode) && s < f.nsubbands {
                (if f.mode == SBC_MODE_JOINT_STEREO {
                    spec_js_scf(sb, c, f.nblocks as int, f.nsubbands as int, s)
                } else {
                    spec_scf(sb, c, f.nblocks as int, f.nsubbands as int, s)
                }) as i32
            } else {
                0i32
            },
    )
}

/// The number of bits of the samples of each channel and subband of a frame of scale
/// factors `sf`: one allocation for both channels of a stereo frame, one per channel
/// otherwise; zero past the channels and subbands of the frame.
#[verifier::opaque]
pub open spec fn spec_frame_nbits(f: sbc_frame, sf: [[i32; 8]; 2]) -> [[i32; 8]; 2] {
    let h = spec_header_of(f);
    spec_rows(
        |c: int, s: int|
            if c < spec_nchannels(f.mode) && s < f.nsubbands {
                (if f.mode == SBC_MODE_DUAL_CHANNEL {
                    spec_nbit(h, sf, c, 0, s)
                } else {
                    spec_nbit(h, sf, 0, c, s)
                }) as i32
            } else {
                0i32
            },
    )
}

/// The joint-stereo flags of the first `k` subbands, first most significant.
pub open spec fn spec_joint_flags(f: sbc_frame, sb: [[i16; 128]; 2], k: nat) -> nat
    decreases k,
{
    if k == 0 {
        0
    } else {
        2 * spec_joint_flags(f, sb, (k - 1) as nat) + if spec_is_joint(f, sb, k - 1) {
            1nat
        } else {
            0nat
        }
    }
}

/// Sample `i` of channel `ch` of a frame as it is quantized: on joint subbands, half the
/// sum (channel 0) or half the difference (channel 1) of the channels.
pub open spec fn spec_frame_sample(f: sbc_frame, sb: [[i16; 128]; 2], ch: int, i: int) -> i16 {
    let s0 = sb[0][i] as int;
    let s1 = sb[1][i] as int;
    if i < f.nblocks * f.nsubbands && spec_is_joint(f, sb, i % (f.nsubbands as int)) {
        if ch == 0 {
            ((s0 + s1) / 2) as i16
        } else {
            ((s0 - s1) / 2) as i16
        }
    } else {
        sb[ch][i]
    }
}

/// The encoder's sum and difference of a joint subband, halved, are undone by the
/// decoder: when the decoder reads a joint subband whose coded samples are those the
/// encoder made from left and right subband samples `l = sb[0][i]` and `r = sb[1][i]`,
/// the decoded right sample is `r` exactly, and the decoded left one `l`, or `l - 1` where
/// the halving dropped a bit.
pub proof fn lemma_joint_round_trip(
    d: Seq<u8>,
    p0: int,
    h: crate::decoder::SbcHeader,
    iblk: int,
    isb: int,
    f: sbc_frame,
    sb: [[i16; 128]; 2],
    i: int,
)
    requires
        crate::decoder::frame::spec_joint(d, p0, h, isb),
        spec_is_joint(f, sb, isb),
        0 <= i < f.nblocks * f.nsubbands,
        f.nsubbands > 0,
        i % (f.nsubbands as int) == isb,
        crate::decoder::frame::spec_coded_sample(d, p0, h, iblk, 0, isb) == spec_frame_sample(
            f,
            sb,
            0,
            i,
        ),
        crate::decoder::frame::spec_coded_sample(d, p0, h, iblk, 1, isb) == spec_frame_sample(
            f,
            sb,
            1,
            i,
        ),
    ensures
        crate::decoder::frame::spec_sample(d, p0, h, iblk, 1, isb) == sb[1][i],
        sb[0][i] > i16::MIN ==> {
            let left = crate::decoder::frame::spec_sample(d, p0, h, iblk, 0, isb) as int;
            left == sb[0][i] || left == sb[0][i] - 1
        },
{
    let l = sb[0][i] as int;
    let r = sb[1][i] as int;
    lemma_fundamental_div_mod(l + r, 2);
    lemma_fundamental_div_mod(l - r, 2);
    let s0 = crate::decoder::frame::spec_coded_sample(d, p0, h, iblk, 0, isb) as int;
    let s1 = crate::decoder::frame::spec_coded_sample(d, p0, h, iblk, 1, isb) as int;
    assert(s0 == (l + r) / 2);
    assert(s1 == (l - r) / 2);
    assert(s0 - s1 == r);
    assert(s0 + s1 == l || s0 + s1 == l - 1);
}

/// The payload of a frame of parameters `f` and subband samples `sb`, whose samples as
/// quantized are `coded`, without its padding: its value, first field most significant,
/// and its number of bits. The joint-stereo flags come first, then the scale factors,
/// then the samples.
pub open spec fn spec_frame_payload(f: sbc_frame, sb: [[i16; 128]; 2], coded: [[i16; 128]; 2]) -> (
    nat,
    nat,
) {
    let nch = spec_nchannels(f.mode);
    let nsb = f.nsubbands as int;
    let sf = spec_frame_scale_factors(f, sb);
    let jl: nat = if f.mode == SBC_MODE_JOINT_STEREO {
        nsb as nat
    } else {
        0
    };
    let jv = spec_joint_flags(f, sb, jl);
    let sfl = (4 * nch * nsb) as nat;
    let sfv = spec_sf_fields(sf, nsb, (nch * nsb) as nat);
    let smp = spec_sample_fields(
        coded,
        sf,
        spec_frame_nbits(f, sf),
        nch,
        nsb,
        (f.nblocks * nch * nsb) as nat,
    );
    ((jv * pow2(sfl) + sfv) * pow2(smp.1) + smp.0, jl + sfl + smp.1)
}

/// The number of zero bits that complete `len` bits to whole bytes.
pub open spec fn spec_padding(len: nat) -> nat {
    ((8 - len % 8) % 8) as nat
}

/// The flags written from the mask of joint subbands are those of the frame.
proof fn lemma_joint_flags(f: sbc_frame, sb: [[i16; 128]; 2], m: u32, k: nat)
    requires
        k <= 32,
        forall|i: int| 0 <= i < k ==> spec_bit(m, i) == #[trigger] spec_is_joint(f, sb, i),
    ensures
        spec_joint_field(m, k) == spec_joint_flags(f, sb, k),
    decreases k,
{
    if k > 0 {
        lemma_joint_flags(f, sb, m, (k - 1) as nat);
        assert(spec_bit(m, k - 1) == spec_is_joint(f, sb, k - 1));
    }
}

/// Appending fields of `a`, `b` and `c` bits to a value of `len` bits.
proof fn lemma_append3(v: nat, x: nat, a: nat, y: nat, b: nat, z: nat, c: nat)
    ensures
        ((v * pow2(a) + x) * pow2(b) + y) * pow2(c) + z == v * pow2(a + b + c) + ((x * pow2(b) + y)
            * pow2(c) + z),
{
    lemma_pow2_adds(a, b);
    lemma_pow2_adds(a + b, c);
    let pa = pow2(a) as int;
    let pb = pow2(b) as int;
    let pc = pow2(c) as int;
    assert(((v * pa + x) * pb + y) * pc + z == v * (pa * pb * pc) + ((x * pb + y) * pc + z))
        by (nonlinear_arith);
}

/// The scale factors of a frame, and the mask of its joint subbands, one bit each.
fn frame_scale_factors(frame: &sbc_frame, sb: &[[i16; 128]; 2]) -> (r: ([[i32; 8]; 2], u32))
    requires
        frame_encodable(*frame),
    ensures
        r.0 == spec_frame_scale_factors(*frame, *sb),
        scale_factors_in_range(r.0, 0, spec_nchannels(frame.mode), frame.nsubbands as int),
        forall|i: int| 0 <= i < 32 ==> #[trigger] spec_bit(r.1, i) == (i < frame.nsubbands
            && spec_is_joint(*frame, *sb, i)),
{
    let ghost f = *frame;
    let mut scale_factors: [[i32; 8]; 2] = [[0; 8]; 2];
    let mut mjoint: u32 = 0;
    if frame.mode == SBC_MODE_JOINT_STEREO {
        compute_scale_factors_js(frame, sb, &mut scale_factors, &mut mjoint);
    } else {
        compute_scale_factors(frame, sb, &mut scale_factors);
        assert forall|i: int| 0 <= i < 32 implies !#[trigger] spec_bit(mjoint, i) by {
            lemma_bit_facts();
            assert((0u32 >> (i as u32)) & 1u32 == 0u32);
        }
    }
    // The second channel of a dual-channel frame was given its scale factors above, with
    // the first.
    proof {
        reveal(spec_frame_scale_factors);
        let sf = spec_frame_scale_factors(f, *sb);
        assert forall|c: int| 0 <= c < 2 implies scale_factors[c] =~= sf[c] by {
            assert forall|s: int| 0 <= s < 8 implies scale_factors[c][s] == sf[c][s] by {
                lemma_spec_rows(
                    |c: int, s: int|
                        if c < spec_nchannels(f.mode) && s < f.nsubbands {
                            (if f.mode == SBC_MODE_JOINT_STEREO {
                                spec_js_scf(*sb, c, f.nblocks as int, f.nsubbands as int, s)
                            } else {
                                spec_scf(*sb, c, f.nblocks as int, f.nsubbands as int, s)
                            }) as i32
                        } else {
                            0i32
                        },
                    c,
                    s,
                );
            }
        }
        assert(scale_factors =~= sf);
    }
    (scale_factors, mjoint)
}

/// The number of bits of the samples of each channel and subband of a frame.
#[verifier::spinoff_prover]
#[verifier::rlimit(30)]
fn frame_nbits(frame: &sbc_frame, scale_factors: &[[i32; 8]; 2]) -> (r: [[i32; 8]; 2])
    requires
        frame_encodable(*frame),
        scale_factors_in_range(*scale_factors, 0, spec_nchannels(frame.mode), frame.nsubbands as int),
    ensures
        r == spec_frame_nbits(*frame, *scale_factors),
        nbits_in_range(r, spec_nchannels(frame.mode), frame.nsubbands as int),
        spec_nbits_row(r, 0, frame.nsubbands as nat) + (if frame.mode != SBC_MODE_MONO {
            spec_nbits_row(r, 1, frame.nsubbands as nat)
        } else {
            0
        }) == frame.bitpool * (if frame.mode == SBC_MODE_DUAL_CHANNEL {
            2int
        } else {
            1int
        }),
{
    let ghost f = *frame;
    let ghost sf = *scale_factors;
    proof {
        lemma_raw_frame_valid(f);
    }
    let header = header_of(frame);
    let mut nbits: [[i32; 8]; 2] = [[0; 8]; 2];
    compute_nbits(&header, scale_factors, &mut nbits, 0);
    if frame.mode == SBC_MODE_DUAL_CHANNEL {
        compute_nbits(&header, scale_factors, &mut nbits, 1);
    }
    proof {
        let h = header;
        let nsb = f.nsubbands as nat;
        if f.mode == SBC_MODE_DUAL_CHANNEL {
            lemma_nbits_row_alloc(nbits, h, sf, 0, 0, 0, nsb);
            lemma_nbits_row_alloc(nbits, h, sf, 1, 1, 0, nsb);
        } else if f.mode == SBC_MODE_MONO {
            lemma_nbits_row_alloc(nbits, h, sf, 0, 0, 0, nsb);
        } else {
            lemma_nbits_row_alloc(nbits, h, sf, 0, 0, 0, nsb);
            lemma_nbits_row_alloc(nbits, h, sf, 0, 1, 1, nsb);
        }
    }
    proof {
        reveal(spec_frame_nbits);
        let h = spec_header_of(f);
        let nb = spec_frame_nbits(f, sf);
        assert forall|c: int| 0 <= c < 2 implies nbits[c] =~= nb[c] by {
            assert forall|s: int| 0 <= s < 8 implies nbits[c][s] == nb[c][s] by {
                lemma_spec_rows(
                    |c: int, s: int|
                        if c < spec_nchannels(f.mode) && s < f.nsubbands {
                            (if f.mode == SBC_MODE_DUAL_CHANNEL {
                                spec_nbit(h, sf, c, 0, s)
                            } else {
                                spec_nbit(h, sf, 0, c, s)
                            }) as i32
                        } else {
                            0i32
                        },
                    c,
                    s,
                );
            }
        }
        assert(nbits =~= nb);
        assert forall|c: int, s: int|
            0 <= c < spec_nchannels(f.mode) && 0 <= s < f.nsubbands implies 0 <= #[trigger] nbits[c][s]
            <= 16 by {
            if f.mode == SBC_MODE_DUAL_CHANNEL {
                assert(0 <= spec_nbit(h, sf, c, 0, s) <= 16);
            } else {
                assert(0 <= spec_nbit(h, sf, 0, c, s) <= 16);
            }
        }
    }
    nbits
}

/// Writes the joint-stereo flags of a joint-stereo frame, one bit per subband, from the
/// mask of its joint subbands; nothing for another mode.
fn put_joint_flags(bits: &mut Bits, frame: &sbc_frame, sb: &[[i16; 128]; 2], mjoint: u32)
    requires
        old(bits).wf(),
        old(bits).mode() == Mode::Write,
        frame_encodable(*frame),
        forall|i: int| 0 <= i < 32 ==> #[trigger] spec_bit(mjoint, i) == (i < frame.nsubbands
            && spec_is_joint(*frame, *sb, i)),
    ensures
        final(bits).wf(),
        final(bits).mode() == Mode::Write,
        final(bits).error() == old(bits).error(),
        final(bits).bytes().len() == old(bits).bytes().len(),
        ({
            let jl: nat = if frame.mode == SBC_MODE_JOINT_STEREO {
                frame.nsubbands as nat
            } else {
                0
            };
            &&& final(bits).written_len() == old(bits).written_len() + jl
            &&& final(bits).written_value() == old(bits).written_value() * pow2(jl)
                + spec_joint_flags(*frame, *sb, jl)
        }),
{
    proof {
        lemma2_to64();
    }
    if frame.mode == SBC_MODE_JOINT_STEREO {
        let nsb = frame.nsubbands as usize;
        let v = joint_field(mjoint, nsb);
        proof {
            lemma_joint_flags(*frame, *sb, mjoint, nsb as nat);
            lemma_joint_field_bound(mjoint, nsb as nat);
            lemma_pow2_pos(nsb as nat);
            vstd::arithmetic::div_mod::lemma_small_mod(v as nat, pow2(nsb as nat));
        }
        bits.put_bits(v, nsb as u32);
    } else {
        let ghost v = bits.written_value();
        assert(v * pow2(0) == v) by (nonlinear_arith)
            requires
                pow2(0) == 1,
        ;
    }
}

/// Writes the payload of a frame of parameters `frame` from its subband samples `sb`:
/// the joint-stereo flags, the scale factors and the quantized samples, then zero bits
/// up to a whole byte. The joint subbands of `sb` are left coded as half sum and half
/// difference.
#[verifier::spinoff_prover]
#[verifier::rlimit(40)]
fn encode_frame(bits: &mut Bits, frame: &sbc_frame, sb: &mut [[i16; 128]; 2])
    requires
        old(bits).wf(),
        old(bits).mode() == Mode::Write,
        frame_encodable(*frame),
    ensures
        final(bits).wf(),
        final(bits).mode() == Mode::Write,
        final(bits).error() == old(bits).error(),
        final(bits).bytes().len() == old(bits).bytes().len(),
        forall|ch: int, i: int|
            0 <= ch < 2 && 0 <= i < 128 ==> #[trigger] final(sb)[ch][i] == spec_frame_sample(
                *frame,
                *old(sb),
                ch,
                i,
            ),
        ({
            let p = spec_frame_payload(*frame, *old(sb), *final(sb));
            let pad = spec_padding(old(bits).written_len() + p.1);
            &&& final(bits).written_len() == old(bits).written_len() + p.1 + pad
            &&& final(bits).written_value() == (old(bits).written_value() * pow2(p.1) + p.0)
                * pow2(pad)
            &&& p.1 == spec_raw_payload_bits(*frame)
        }),
        scale_factors_in_range(
            spec_frame_scale_factors(*frame, *old(sb)),
            0,
            spec_nchannels(frame.mode),
            frame.nsubbands as int,
        ),
{
    let ghost f = *frame;
    let ghost sb0 = *sb;
    let ghost len0 = bits.written_len();
    let ghost v0 = bits.written_value();
    let nblocks = frame.nblocks as usize;
    let nsb = frame.nsubbands as usize;
    let nch: usize = if frame.mode != SBC_MODE_MONO {
        2
    } else {
        1
    };

    /* --- Scale factors and joint-stereo flags --- */
    let (scale_factors, mjoint) = frame_scale_factors(frame, sb);
    put_joint_flags(bits, frame, sb, mjoint);
    put_scale_factors(bits, &scale_factors, nch, nsb);

    /* --- Bit allocation --- */
    let nbits = frame_nbits(frame, &scale_factors);

    /* --- Joint-stereo coding, and quantized samples --- */
    joint_transform(sb, mjoint, nblocks, nsb);
    assert forall|ch: int, i: int| 0 <= ch < 2 && 0 <= i < 128 implies #[trigger] sb[ch][i]
        == spec_frame_sample(f, sb0, ch, i) by {
        if i < f.nblocks * f.nsubbands {
            let isb = i % (nsb as int);
            assert(spec_bit(mjoint, isb) == spec_is_joint(f, sb0, isb));
        }
    }
    put_samples(bits, sb, &scale_factors, &nbits, nblocks, nch, nsb);

    /* --- Padding to a whole byte --- */
    let ghost len3 = bits.written_len();
    let ghost v3 = bits.written_value();
    let tell = bits.pos();
    let padding_nbits = 8 - tell % 8;
    let pad: u32 = if padding_nbits < 8 {
        padding_nbits as u32
    } else {
        0
    };
    bits.put_bits(0, pad);
    proof {
        let sf = spec_frame_scale_factors(f, sb0);
        let jl: nat = if f.mode == SBC_MODE_JOINT_STEREO {
            nsb as nat
        } else {
            0
        };
        let jv = spec_joint_flags(f, sb0, jl);
        let smp = spec_sample_fields(
            *sb,
            sf,
            spec_frame_nbits(f, sf),
            nch as int,
            nsb as int,
            (nblocks * nch * nsb) as nat,
        );
        let sfl = (4 * (nch * nsb)) as nat;
        let sfv = spec_sf_fields(sf, nsb as int, (nch * nsb) as nat);
        assert(4 * nch * nsb == 4 * (nch * nsb)) by (nonlinear_arith);
        lemma_append3(v0, jv, jl, sfv, sfl, smp.0, smp.1);
        assert(pad == spec_padding(len3));
        lemma_samples_fill_budget(f, sf, spec_frame_nbits(f, sf), *sb);
        lemma_raw_frame_valid(f);
        let dual: int = if f.mode == SBC_MODE_DUAL_CHANNEL { 2 } else { 1 };
        assert(f.nblocks * (f.bitpool * dual) == (f.nblocks * f.bitpool) * dual) by (nonlinear_arith);
        assert(4 * (nch * nsb) == (4 * f.nsubbands) * spec_nchannels(f.mode)) by (nonlinear_arith)
            requires
                nch == spec_nchannels(f.mode),
                nsb == f.nsubbands,
        ;
        lemma_pow2_pos(pad as nat);
        vstd::arithmetic::div_mod::lemma_small_mod(0, pow2(pad as nat));
    }
}

/// A field of `k` flags is less than `2^k`.
proof fn lemma_joint_field_bound(m: u32, k: nat)
    ensures
        spec_joint_field(m, k) < pow2(k),
    decreases k,
{
    if k == 0 {
        lemma2_to64();
    } else {
        lemma_joint_field_bound(m, (k - 1) as nat);
        lemma_pow2_unfold(k);
    }
}

/// The number of bits the check byte of a frame of parameters `f` covers after the
/// header.
pub open spec fn spec_encoded_crc_nbit(f: sbc_frame) -> int {
    spec_crc_nbit(spec_header_of(f))
}

/// Sets the check byte of the frame at the start of `data`, of parameters `frame`: -1,
/// with `data` unchanged, when `data` misses bytes that the check covers.
fn put_crc(frame: &sbc_frame, data: &mut [u8]) -> (r: i32)
    requires
        frame_encodable(*frame),
    ensures
        ({
            let nbit = spec_encoded_crc_nbit(*frame);
            &&& old(data)@.len() < (32 + nbit + 7) / 8 ==> r == -1 && final(data)@ == old(data)@
            &&& old(data)@.len() >= (32 + nbit + 7) / 8 ==> r == 0 && final(data)@ == old(
                data,
            )@.update(3, spec_frame_crc(old(data)@, nbit))
        }),
{
    proof {
        lemma_raw_frame_valid(*frame);
    }
    let header = header_of(frame);
    match compute_crc(&header, data) {
        Ok(crc) => {
            data[3] = crc;
            0
        },
        Err(_) => -1,
    }
}

/// The bits of `e` from its start are those of `d` from byte `a`, where the bytes agree.
proof fn lemma_bits_value_shift(d: Seq<u8>, e: Seq<u8>, a: int, n: nat)
    requires
        0 <= a,
        n % 8 == 0,
        a + n / 8 <= d.len(),
        n / 8 <= e.len(),
        forall|j: int| 0 <= j < n / 8 ==> #[trigger] e[j] == d[a + j],
    ensures
        bits_value(d, 8 * a, n) == bits_value(e, 0, n),
    decreases n,
{
    if n > 0 {
        let m = (n - 8) as nat;
        assert forall|j: int| 0 <= j < m / 8 implies #[trigger] e[j] == d[a + j] by {
            assert(j < n / 8);
        }
        lemma_bits_value_shift(d, e, a, m);
        lemma_bits_value_split(d, 8 * a, m, 8);
        lemma_bits_value_split(e, 0, m, 8);
        let k = (m / 8) as int;
        assert(8 * a + m == 8 * (a + k));
        assert(m == 8 * k);
        lemma_bits_value_byte(d, a + k);
        lemma_bits_value_byte(e, k);
        assert(e[k] == d[a + k]);
    }
}

/// The four bytes of the header of a frame of parameters `f`, with a zero check byte.
pub open spec fn spec_header_bytes(f: sbc_frame) -> Seq<u8> {
    if f.msbc {
        seq![0xadu8, 0u8, 0u8, 0u8]
    } else {
        seq![
            0x9cu8,
            (f.freq * 64 + (f.nblocks / 4 - 1) * 16 + f.mode * 4 + f.bam * 2 + (f.nsubbands / 4 - 1))
                as u8,
            f.bitpool as u8,
            0u8,
        ]
    }
}

/// The bytes whose value is the header of `f` are its header bytes.
proof fn lemma_header_bytes(f: sbc_frame, d: Seq<u8>)
    requires
        header_encodable(f),
        d.len() == 4,
        bits_value(d, 0, 32) == spec_header_word(f),
    ensures
        d == spec_header_bytes(f),
{
    lemma_bits_value_word(d);
    assert(d =~= spec_header_bytes(f));
}

/// A header reads back as the parameters it was written from: bytes that start with the
/// first three header bytes of `f` (the check byte aside) start with a sync word and
/// describe `f`, or the mSBC parameters for an mSBC frame.
pub proof fn lemma_header_fields(f: sbc_frame, d: Seq<u8>)
    requires
        header_encodable(f),
        d.len() >= 4,
        d.subrange(0, 3) == spec_header_bytes(f).subrange(0, 3),
    ensures
        spec_sync_ok(d),
        spec_raw_header_fields(d) == spec_encoding_frame(f),
{
    let h = spec_header_bytes(f);
    let e = seq![d[0], d[1], d[2], 0u8];
    assert(d[0] == h[0] && d[1] == h[1] && d[2] == h[2]) by {
        assert(d.subrange(0, 3)[0] == h.subrange(0, 3)[0]);
        assert(d.subrange(0, 3)[1] == h.subrange(0, 3)[1]);
        assert(d.subrange(0, 3)[2] == h.subrange(0, 3)[2]);
    }
    assert(e =~= h);
    lemma_bits_value_word(e);
    lemma_bits_value_word(h);
    assert(bits_value(h, 0, 32) == spec_header_word(f)) by {
        if f.msbc {
        } else {
            assert(h[1] == f.freq * 64 + (f.nblocks / 4 - 1) * 16 + f.mode * 4 + f.bam * 2 + (
            f.nsubbands / 4 - 1));
        }
    }
    lemma_header_read_back(f, e);
}

/// The subband sample `t` of a channel analysed from `pcm` with `pitch` and state `v`:
/// zero past the `nb` blocks of `n` subbands of the frame.
pub open spec fn spec_subband_value(
    v: AnalysisView,
    pcm: Seq<i16>,
    pitch: int,
    n: int,
    nb: int,
    t: int,
) -> i16 {
    if t < nb * n {
        spec_subband_sample(v, pcm, pitch, n, t)
    } else {
        0
    }
}

/// Whether the subband samples `a` of a frame of parameters `f` are those analysed from
/// `pcml` with `pitchl` and state `v0`, and for two channels from `pcmr` with `pitchr` and
/// state `v1`; zero elsewhere.
pub open spec fn is_frame_subbands(
    a: [[i16; 128]; 2],
    f: sbc_frame,
    v0: AnalysisView,
    pcml: Seq<i16>,
    pitchl: int,
    v1: AnalysisView,
    pcmr: Seq<i16>,
    pitchr: int,
) -> bool {
    forall|ch: int, t: int|
        0 <= ch < 2 && 0 <= t < 128 ==> #[trigger] a[ch][t] == if ch == 0 {
            spec_subband_value(v0, pcml, pitchl, f.nsubbands as int, f.nblocks as int, t)
        } else if f.mode != SBC_MODE_MONO {
            spec_subband_value(v1, pcmr, pitchr, f.nsubbands as int, f.nblocks as int, t)
        } else {
            0
        }
}

/// The subband samples of a frame of parameters `f` (see `is_frame_subbands`).
pub open spec fn spec_frame_subbands(
    f: sbc_frame,
    v0: AnalysisView,
    pcml: Seq<i16>,
    pitchl: int,
    v1: AnalysisView,
    pcmr: Seq<i16>,
    pitchr: int,
) -> [[i16; 128]; 2] {
    choose|a: [[i16; 128]; 2]| #[trigger] is_frame_subbands(a, f, v0, pcml, pitchl, v1, pcmr, pitchr)
}

/// A row of 128 values, the first `k` of `g` and zeros after.
pub open spec fn spec_row_of(g: spec_fn(int) -> i16, k: nat) -> [i16; 128]
    decreases k,
{
    if k == 0 {
        spec_array_fill_for_copy_type::<i16, 128>(0i16)
    } else {
        spec_array_update(spec_row_of(g, (k - 1) as nat), k - 1, g(k - 1))
    }
}

/// The first `k` values of `spec_row_of(g, k)` are those of `g`.
proof fn lemma_row_of(g: spec_fn(int) -> i16, k: nat)
    requires
        k <= 128,
    ensures
        forall|j: int| 0 <= j < k ==> #[trigger] spec_row_of(g, k)[j] == g(j),
    decreases k,
{
    if k > 0 {
        lemma_row_of(g, (k - 1) as nat);
        let a = spec_row_of(g, (k - 1) as nat);
        assert(spec_array_update(a, k - 1, g(k - 1))@ == a@.update(k - 1, g(k - 1)));
    }
}

/// The subband samples of a frame, channel by channel: those analysed from `pcml`, and for
/// two channels from `pcmr`.
proof fn lemma_frame_subbands_values(
    f: sbc_frame,
    v0: AnalysisView,
    pcml: Seq<i16>,
    pitchl: int,
    v1: AnalysisView,
    pcmr: Seq<i16>,
    pitchr: int,
)
    ensures
        is_frame_subbands(
            spec_frame_subbands(f, v0, pcml, pitchl, v1, pcmr, pitchr),
            f,
            v0,
            pcml,
            pitchl,
            v1,
            pcmr,
            pitchr,
        ),
{
    let n = f.nsubbands as int;
    let nb = f.nblocks as int;
    let g0 = |t: int| spec_subband_value(v0, pcml, pitchl, n, nb, t);
    let g1 = |t: int|
        if f.mode != SBC_MODE_MONO {
            spec_subband_value(v1, pcmr, pitchr, n, nb, t)
        } else {
            0i16
        };
    lemma_row_of(g0, 128);
    lemma_row_of(g1, 128);
    let a = [spec_row_of(g0, 128), spec_row_of(g1, 128)];
    assert(is_frame_subbands(a, f, v0, pcml, pitchl, v1, pcmr, pitchr));
}

/// The right channel of a frame of two channels carries the analysis of the right input
/// alone: its subband samples are those that the analysis filter bank gives for `pcmr`,
/// `pitchr` and the right channel's state `v1`, whatever the left input and state are.
pub proof fn lemma_right_channel_is_analysis_of_right_input(
    f: sbc_frame,
    v0: AnalysisView,
    pcml: Seq<i16>,
    pitchl: int,
    v1: AnalysisView,
    pcmr: Seq<i16>,
    pitchr: int,
    w0: AnalysisView,
    other: Seq<i16>,
    pitch_other: int,
)
    requires
        spec_raw_check_frame(f),
        f.mode != SBC_MODE_MONO,
    ensures
        forall|t: int|
            0 <= t < f.nblocks * f.nsubbands ==> #[trigger] spec_frame_subbands(
                f,
                v0,
                pcml,
                pitchl,
                v1,
                pcmr,
                pitchr,
            )[1][t] == spec_subband_sample(v1, pcmr, pitchr, f.nsubbands as int, t),
        spec_frame_subbands(f, v0, pcml, pitchl, v1, pcmr, pitchr)[1] == spec_frame_subbands(
            f,
            w0,
            other,
            pitch_other,
            v1,
            pcmr,
            pitchr,
        )[1],
{
    lemma_frame_subbands_values(f, v0, pcml, pitchl, v1, pcmr, pitchr);
    lemma_frame_subbands_values(f, w0, other, pitch_other, v1, pcmr, pitchr);
    assert(f.nblocks * f.nsubbands <= 128) by (nonlinear_arith)
        requires
            4 <= f.nblocks <= 16,
            4 <= f.nsubbands <= 8,
    ;
    let a = spec_frame_subbands(f, v0, pcml, pitchl, v1, pcmr, pitchr);
    let b = spec_frame_subbands(f, w0, other, pitch_other, v1, pcmr, pitchr);
    assert(a[1] =~= b[1]) by {
        assert forall|t: int| 0 <= t < 128 implies a[1][t] == b[1][t] by {
            assert(a[1][t] == b[1][t]);
        }
    }
}

/// The two channels of a frame are coded alike: exchanging the left input and state with
/// the right ones exchanges the subband samples of the two channels.
pub proof fn lemma_frame_subbands_swap(
    f: sbc_frame,
    v0: AnalysisView,
    pcml: Seq<i16>,
    pitchl: int,
    v1: AnalysisView,
    pcmr: Seq<i16>,
    pitchr: int,
)
    requires
        f.mode != SBC_MODE_MONO,
    ensures
        spec_frame_subbands(f, v1, pcmr, pitchr, v0, pcml, pitchl)[0] == spec_frame_subbands(
            f,
            v0,
            pcml,
            pitchl,
            v1,
            pcmr,
            pitchr,
        )[1],
        spec_frame_subbands(f, v1, pcmr, pitchr, v0, pcml, pitchl)[1] == spec_frame_subbands(
            f,
            v0,
            pcml,
            pitchl,
            v1,
            pcmr,
            pitchr,
        )[0],
{
    lemma_frame_subbands_values(f, v0, pcml, pitchl, v1, pcmr, pitchr);
    lemma_frame_subbands_values(f, v1, pcmr, pitchr, v0, pcml, pitchl);
    let a = spec_frame_subbands(f, v0, pcml, pitchl, v1, pcmr, pitchr);
    let b = spec_frame_subbands(f, v1, pcmr, pitchr, v0, pcml, pitchl);
    assert(b[0] =~= a[1]) by {
        assert forall|t: int| 0 <= t < 128 implies b[0][t] == a[1][t] by {
            assert(b[0][t] == a[1][t]);
        }
    }
    assert(b[1] =~= a[0]) by {
        assert forall|t: int| 0 <= t < 128 implies b[1][t] == a[0][t] by {
            assert(b[1][t] == a[0][t]);
        }
    }
}

/// Whether `a` holds the subband samples `sb` of a frame as they are quantized (see
/// `spec_frame_sample`).
pub open spec fn is_frame_coded(a: [[i16; 128]; 2], f: sbc_frame, sb: [[i16; 128]; 2]) -> bool {
    forall|ch: int, i: int|
        0 <= ch < 2 && 0 <= i < 128 ==> #[trigger] a[ch][i] == spec_frame_sample(f, sb, ch, i)
}

/// The subband samples of a frame as they are quantized.
pub open spec fn spec_frame_coded(f: sbc_frame, sb: [[i16; 128]; 2]) -> [[i16; 128]; 2] {
    choose|a: [[i16; 128]; 2]| #[trigger] is_frame_coded(a, f, sb)
}

/// The payload of a frame padded to whole bytes: its value, first bit most significant,
/// and its number of bits.
pub open spec fn spec_encoded_payload(f: sbc_frame, sb: [[i16; 128]; 2]) -> (nat, nat) {
    let p = spec_frame_payload(f, sb, spec_frame_coded(f, sb));
    let pad = spec_padding(p.1);
    (p.0 * pow2(pad), p.1 + pad)
}

/// The parameters that a frame is encoded with: those of mSBC for an mSBC frame.
pub open spec fn spec_encoding_frame(frame: sbc_frame) -> sbc_frame {
    if frame.msbc {
        spec_msbc_frame()
    } else {
        frame
    }
}

/// Whether the PCM buffers hold the samples of a frame of parameters `f`: `nblocks *
/// nsubbands` samples one every `pitch`, of each channel.
pub open spec fn inputs_fit(f: sbc_frame, lenl: int, pitchl: int, lenr: int, pitchr: int) -> bool {
    let n = f.nblocks * f.nsubbands;
    &&& (n - 1) * pitchl < lenl
    &&& f.mode != SBC_MODE_MONO ==> (n - 1) * pitchr < lenr
}

/// Copies the first `n` bytes of `src` to `dst` from `start`.
fn copy_into(dst: &mut [u8], start: usize, src: &[u8], n: usize)
    requires
        n <= src.len(),
        start + n <= old(dst).len(),
    ensures
        final(dst)@.len() == old(dst)@.len(),
        forall|j: int| 0 <= j < n ==> #[trigger] final(dst)@[start + j] == src@[j],
        forall|j: int|
            0 <= j < old(dst)@.len() && !(start <= j < start + n) ==> #[trigger] final(dst)@[j] == old(
                dst,
            )@[j],
{
    let ghost d0 = dst@;
    let mut i: usize = 0;
    while i < n
        invariant
            i <= n <= src.len(),
            start + n <= dst.len(),
            dst@.len() == d0.len(),
            forall|j: int| 0 <= j < i ==> #[trigger] dst@[start + j] == src@[j],
            forall|j: int| 0 <= j < d0.len() && !(start <= j < start + i) ==> #[trigger] dst@[j] == d0[j],
        decreases n - i,
    {
        dst[start + i] = src[i];
        i += 1;
    }
}

/// Encodes a frame of parameters `frame` (those of mSBC for an mSBC frame) into `data`,
/// from the samples of the left channel, one every `pitchl` of `pcml`, and for two
/// channels from those of the right one, one every `pitchr` of `pcmr`. -1, with nothing
/// changed, when the parameters are invalid or `data` is shorter than the frame; else 0,
/// with the frame at the start of `data`: its header, its check byte, and its payload,
/// which fills the frame to its last byte. The frame passes the decoder's checks, and the decoder
/// reads back from it the scale factors, joint-stereo flags and quantized samples that
/// were written.
#[verifier::spinoff_prover]
#[verifier::rlimit(50)]
pub fn sbc_encode(
    sbc: &mut sbc,
    pcml: &[i16],
    pitchl: usize,
    pcmr: &[i16],
    pitchr: usize,
    frame: &sbc_frame,
    data: &mut [u8],
) -> (r: i32)
    requires
        old(sbc).wf(),
        frame.msbc || (codes_in_range(*frame) && frame.bitpool >= 0),
        ({
            let f = spec_encoding_frame(*frame);
            spec_raw_check_frame(f) && old(data)@.len() >= spec_raw_frame_size(f) ==> inputs_fit(
                f,
                pcml@.len() as int,
                pitchl as int,
                pcmr@.len() as int,
                pitchr as int,
            )
        }),
    ensures
        final(sbc).wf(),
        final(data)@.len() == old(data)@.len(),
        ({
            let f = spec_encoding_frame(*frame);
            let fs = spec_raw_frame_size(f) as int;
            let len = old(data)@.len() as int;
            let ok = spec_raw_check_frame(f) && len >= fs;
            let e0 = old(sbc).estates[0]@;
            let e1 = old(sbc).estates[1]@;
            let n = f.nsubbands as int;
            let nb = f.nblocks as nat;
            let sb = spec_frame_subbands(f, e0, pcml@, pitchl as int, e1, pcmr@, pitchr as int);
            let p = spec_encoded_payload(f, sb);
            &&& r == if ok { 0i32 } else { -1i32 }
            &&& !ok ==> final(data)@ == old(data)@ && *final(sbc) == *old(sbc)
            &&& ok ==> spec_raw_decode_ok(final(data)@)
            &&& ok ==> {
                &&& final(sbc).nchannels == old(sbc).nchannels
                &&& final(sbc).nblocks == old(sbc).nblocks
                &&& final(sbc).nsubbands == old(sbc).nsubbands
                &&& final(sbc).dstates == old(sbc).dstates
                &&& final(sbc).estates[0]@ == spec_analysis_state(e0, pcml@, pitchl as int, n, nb)
                &&& final(sbc).estates[1]@ == if f.mode != SBC_MODE_MONO {
                    spec_analysis_state(e1, pcmr@, pitchr as int, n, nb)
                } else {
                    e1
                }
                &&& final(data)@.subrange(0, 3) == spec_header_bytes(f).subrange(0, 3)
                &&& final(data)@[3] == spec_frame_crc(final(data)@, spec_encoded_crc_nbit(f))
                &&& final(data)@.subrange(fs, len) == old(data)@.subrange(fs, len)
                &&& p.1 == 8 * (fs - 4)
                &&& bits_value(final(data)@, 32, p.1) == p.0
                &&& spec_frame_sf(final(data)@, 32, spec_header_of(f)) == spec_frame_scale_factors(
                    f,
                    sb,
                )
                &&& forall|isb: int|
                    0 <= isb < f.nsubbands ==> #[trigger] crate::decoder::frame::spec_joint(
                        final(data)@,
                        32,
                        spec_header_of(f),
                        isb,
                    ) == spec_is_joint(f, sb, isb)
                &&& forall|iblk: int, ich: int, isb: int|
                    0 <= iblk < f.nblocks && 0 <= ich < spec_nchannels(f.mode) && 0 <= isb
                        < f.nsubbands ==> bits_value(
                        final(data)@,
                        spec_sample_pos(final(data)@, 32, spec_header_of(f), iblk, ich, isb),
                        spec_frame_nbit(final(data)@, 32, spec_header_of(f), ich, isb) as nat,
                    ) == #[trigger] spec_encoded_code(f, sb, iblk, ich, isb)
                &&& final(data)@.subrange((4 + p.1 / 8) as int, len) == old(data)@.subrange(
                    (4 + p.1 / 8) as int,
                    len,
                )
            }
        }),
{
    let ghost d0 = data@;
    let ghost s0 = *sbc;
    let f = if frame.msbc {
        msbc_frame()
    } else {
        *frame
    };
    assert(f == spec_encoding_frame(*frame));
    if !check_frame(&f) {
        return -1;
    }
    proof {
        lemma_raw_frame_valid(f);
        lemma_bitpool_byte(f);
    }
    let fs = sbc_get_frame_size(&f) as usize;
    if data.len() < fs {
        return -1;
    }
    let nb = f.nblocks as usize;
    let nsb = f.nsubbands as usize;
    assert(nb * nsb <= 128) by (nonlinear_arith)
        requires
            nb <= 16,
            nsb <= 8,
    ;

    /* --- Analysis of the channels into subband samples --- */
    let mut sb0 = [0i16; 128];
    let mut e0 = sbc.estates[0];
    analyze(&mut e0, nb, nsb, pcml, pitchl, &mut sb0);
    sbc.estates[0] = e0;
    let mut sb1 = [0i16; 128];
    if f.mode != SBC_MODE_MONO {
        let mut e1 = sbc.estates[1];
        analyze(&mut e1, nb, nsb, pcmr, pitchr, &mut sb1);
        sbc.estates[1] = e1;
    }
    let mut sb = [sb0, sb1];
    let ghost sbs = spec_frame_subbands(
        f,
        s0.estates[0]@,
        pcml@,
        pitchl as int,
        s0.estates[1]@,
        pcmr@,
        pitchr as int,
    );
    proof {
        assert(is_frame_subbands(sb, f, s0.estates[0]@, pcml@, pitchl as int, s0.estates[1]@, pcmr@, pitchr as int));
        assert(sb[0] =~= sbs[0]);
        assert(sb[1] =~= sbs[1]);
        assert(sb =~= sbs);
    }

    /* --- Payload, after the four bytes of the header --- */
    let mut bits = Bits::new(Mode::Write, &data[4..fs]);
    encode_frame(&mut bits, &f, &mut sb);
    bits.flush();
    let ghost coded = spec_frame_coded(f, sbs);
    proof {
        assert(is_frame_coded(sb, f, sbs));
        assert(sb[0] =~= coded[0]);
        assert(sb[1] =~= coded[1]);
        assert(sb =~= coded);
        let q = spec_frame_payload(f, sbs, coded);
        assert(0 * pow2(q.1) + q.0 == q.0) by (nonlinear_arith);
    }
    let written = bits.pos() / 8;
    let nbytes = if written < fs - 4 {
        written
    } else {
        fs - 4
    };
    copy_into(data, 4, bits.data(), nbytes);
    let ghost payload = bits.bytes();
    let ghost d1 = data@;

    /* --- Header, then its check byte --- */
    let mut hbits = Bits::new(Mode::Write, &data[0..4]);
    encode_header(&mut hbits, &f);
    hbits.flush();
    proof {
        lemma2_to64();
        assert(0 * pow2(32) + spec_header_word(f) == spec_header_word(f)) by (nonlinear_arith);
        lemma_header_bytes(f, hbits.bytes());
    }
    copy_into(data, 0, hbits.data(), 4);
    let ghost d2 = data@;
    assert(d2.subrange(0, 3) =~= spec_header_bytes(f).subrange(0, 3)) by {
        assert forall|j: int| 0 <= j < 3 implies #[trigger] d2[j] == spec_header_bytes(f)[j] by {
            assert(d2[0 + j] == hbits.bytes()[j]);
        }
    }
    proof {
        assert(fs >= (32 + spec_encoded_crc_nbit(f) + 7) / 8) by {
            lemma_frame_covers_crc(f);
        }
    }
    put_crc(&f, data);
    proof {
        let nbit = spec_encoded_crc_nbit(f);
        crate::decoder::crc::lemma_frame_crc_skips_sync_and_crc(d2, 3, spec_frame_crc(d2, nbit), nbit);
        assert(data@.subrange(0, 3) =~= spec_header_bytes(f).subrange(0, 3));
        assert(data@.subrange(fs as int, d0.len() as int) =~= d0.subrange(fs as int, d0.len() as int));
        lemma_header_fields(f, data@);
        let p = spec_encoded_payload(f, sbs);
        let q = spec_frame_payload(f, sbs, coded);
        lemma_padded_bytes(q.1);
        assert(p.1 == 8 * (fs - 4));
        {
            assert(bits_value(data@, 32, p.1) == bits_value(payload, 0, p.1)) by {
                assert forall|j: int| 0 <= j < p.1 / 8 implies #[trigger] payload[j] == data@[4 + j] by {
                }
                lemma_bits_value_shift(data@, payload, 4, p.1);
            }
            lemma_side_info_reads_back(f, sbs, data@);
            assert forall|iblk: int, ich: int, isb: int|
                0 <= iblk < f.nblocks && 0 <= ich < spec_nchannels(f.mode) && 0 <= isb
                    < f.nsubbands implies bits_value(
                data@,
                spec_sample_pos(data@, 32, spec_header_of(f), iblk, ich, isb),
                spec_frame_nbit(data@, 32, spec_header_of(f), ich, isb) as nat,
            ) == #[trigger] spec_encoded_code(f, sbs, iblk, ich, isb) by {
                lemma_sample_reads_back(f, sbs, data@, iblk, ich, isb);
            }
            assert(data@.subrange((4 + p.1 / 8) as int, d0.len() as int) =~= d0.subrange(
                (4 + p.1 / 8) as int,
                d0.len() as int,
            ));
        }
    }
    0
}

/// The bitpool of valid parameters fits in a byte.
proof fn lemma_bitpool_byte(f: sbc_frame)
    requires
        spec_raw_check_frame(f),
    ensures
        f.bitpool < 256,
{
    let two: int = if f.mode != SBC_MODE_MONO { 2 } else { 1 };
    let dual: int = if f.mode == SBC_MODE_DUAL_CHANNEL { 2 } else { 1 };
    let joint = f.mode == SBC_MODE_JOINT_STEREO;
    let max_bits = (16 * f.nsubbands * f.nblocks) * two - 4 * 8 - (4 * f.nsubbands) * two - (
    if joint {
        f.nsubbands as int
    } else {
        0
    });
    let nb = f.nblocks as int;
    let ns = f.nsubbands as int;
    assert(max_bits < 256 * (nb * dual)) by (nonlinear_arith)
        requires
            max_bits <= (16 * ns * nb) * two - 32,
            1 <= two <= 2,
            1 <= dual,
            4 <= nb <= 16,
            ns <= 8,
    ;
    assert(max_bits / (nb * dual) < 256) by (nonlinear_arith)
        requires
            max_bits < 256 * (nb * dual),
            nb * dual > 0,
    ;
}

/// A frame holds the bytes its check covers.
proof fn lemma_frame_covers_crc(f: sbc_frame)
    requires
        frame_encodable(f),
    ensures
        spec_raw_frame_size(f) >= (32 + spec_encoded_crc_nbit(f) + 7) / 8,
{
    lemma_raw_frame_valid(f);
}

/// The bits of the samples of the first `k` positions, block by block, channel by channel,
/// subband by subband.
pub open spec fn spec_nbits_total(nbits: [[i32; 8]; 2], nch: int, nsb: int, k: nat) -> int
    decreases k,
{
    if k == 0 {
        0
    } else {
        let t = k - 1;
        spec_nbits_total(nbits, nch, nsb, (k - 1) as nat) + nbits[(t / nsb) % nch][t % nsb]
    }
}

/// The samples take as many bits as their allocation gives them.
proof fn lemma_sample_fields_len(
    sb: [[i16; 128]; 2],
    sf: [[i32; 8]; 2],
    nbits: [[i32; 8]; 2],
    nch: int,
    nsb: int,
    k: nat,
)
    requires
        1 <= nch <= 2,
        nsb == 4 || nsb == 8,
        nbits_in_range(nbits, nch, nsb),
    ensures
        spec_sample_fields(sb, sf, nbits, nch, nsb, k).1 == spec_nbits_total(nbits, nch, nsb, k),
    decreases k,
{
    if k > 0 {
        lemma_sample_fields_len(sb, sf, nbits, nch, nsb, (k - 1) as nat);
        let t = k - 1;
        lemma_fundamental_div_mod(t / nsb, nch);
        assert(0 <= nbits[(t / nsb) % nch][t % nsb]);
    }
}

/// Position `b * nch * nsb + j` is position `j` of its block.
proof fn lemma_block_position(b: int, j: int, nch: int, nsb: int)
    requires
        0 <= b,
        0 <= j,
        1 <= nch,
        1 <= nsb,
    ensures
        ((b * (nch * nsb) + j) / nsb) % nch == (j / nsb) % nch,
        (b * (nch * nsb) + j) % nsb == j % nsb,
{
    let t = b * (nch * nsb) + j;
    lemma_fundamental_div_mod(j, nsb);
    assert(t == (b * nch + j / nsb) * nsb + j % nsb) by (nonlinear_arith)
        requires
            t == b * (nch * nsb) + j,
            j == nsb * (j / nsb) + j % nsb,
    ;
    lemma_fundamental_div_mod_converse(t, nsb, b * nch + j / nsb, j % nsb);
    lemma_mod_multiples_vanish(b, j / nsb, nch);
    assert(b * nch + j / nsb == nch * b + j / nsb) by (nonlinear_arith);
}

/// The bits of the first `b` blocks and `j` more positions.
proof fn lemma_nbits_total_blocks(nbits: [[i32; 8]; 2], nch: int, nsb: int, b: nat, j: nat)
    requires
        1 <= nch,
        1 <= nsb,
    ensures
        spec_nbits_total(nbits, nch, nsb, (b * (nch * nsb) + j) as nat) == b * spec_nbits_total(
            nbits,
            nch,
            nsb,
            (nch * nsb) as nat,
        ) + spec_nbits_total(nbits, nch, nsb, j),
    decreases b, j,
{
    let p = nch * nsb;
    assert(p >= 1) by (nonlinear_arith)
        requires
            p == nch * nsb,
            1 <= nch,
            1 <= nsb,
    ;
    if j > 0 {
        lemma_nbits_total_blocks(nbits, nch, nsb, b, (j - 1) as nat);
        lemma_block_position(b as int, j - 1, nch, nsb);
        assert(b * p + j - 1 == b * p + (j - 1));
    } else if b > 0 {
        lemma_nbits_total_blocks(nbits, nch, nsb, (b - 1) as nat, p as nat);
        assert((b - 1) * p + p == b * p) by (nonlinear_arith);
        assert((b - 1) * spec_nbits_total(nbits, nch, nsb, p as nat) + spec_nbits_total(
            nbits,
            nch,
            nsb,
            p as nat,
        ) == b * spec_nbits_total(nbits, nch, nsb, p as nat)) by (nonlinear_arith);
    } else {
        assert(0 * p + 0 == 0);
        assert(0 * spec_nbits_total(nbits, nch, nsb, p as nat) == 0);
    }
}

/// The bits of the first `n` subbands of channel `ich`.
pub open spec fn spec_nbits_row(nbits: [[i32; 8]; 2], ich: int, n: nat) -> int
    decreases n,
{
    if n == 0 {
        0
    } else {
        spec_nbits_row(nbits, ich, (n - 1) as nat) + nbits[ich][n - 1]
    }
}

/// Within a block, the positions go channel by channel.
proof fn lemma_nbits_total_rows(nbits: [[i32; 8]; 2], nch: int, nsb: int, ich: nat, s: nat)
    requires
        1 <= nch <= 2,
        1 <= nsb,
        ich < nch,
        s <= nsb,
    ensures
        spec_nbits_total(nbits, nch, nsb, (ich * nsb + s) as nat) == (if ich == 1 {
            spec_nbits_row(nbits, 0, nsb as nat)
        } else {
            0
        }) + spec_nbits_row(nbits, ich as int, s),
    decreases ich, s,
{
    if s > 0 {
        lemma_nbits_total_rows(nbits, nch, nsb, ich, (s - 1) as nat);
        let t = ich * nsb + s - 1;
        lemma_fundamental_div_mod_converse(t, nsb, ich as int, s - 1);
        assert((ich as int) % nch == ich);
        assert(((ich * nsb + s) as nat - 1) as nat == t);
    } else if ich == 1 {
        lemma_nbits_total_rows(nbits, nch, nsb, 0, nsb as nat);
        assert(ich * nsb + s == 0 * nsb + nsb);
    } else {
        assert(ich * nsb + s == 0);
    }
}

/// A row of bits given by an allocation is its row of positions.
proof fn lemma_nbits_row_alloc(
    nbits: [[i32; 8]; 2],
    h: crate::decoder::SbcHeader,
    sf: [[i32; 8]; 2],
    ch0: int,
    c: int,
    ich: int,
    n: nat,
)
    requires
        0 <= c < 2,
        forall|s: int| 0 <= s < n ==> #[trigger] nbits[c][s] == spec_nbit(h, sf, ch0, ich, s),
    ensures
        spec_nbits_row(nbits, c, n) == row_sum(
            |k: int| spec_nbit_flat(h, sf, ch0, k),
            spec_alloc_channels(h),
            ich,
            n,
        ),
    decreases n,
{
    if n > 0 {
        lemma_nbits_row_alloc(nbits, h, sf, ch0, c, ich, (n - 1) as nat);
        assert(nbits[c][n - 1] == spec_nbit(h, sf, ch0, ich, n - 1));
    }
}

/// The samples of a frame take the bits its bitpool gives each block: once per block,
/// twice for two channels coded apart.
proof fn lemma_samples_fill_budget(
    f: sbc_frame,
    sf: [[i32; 8]; 2],
    nbits: [[i32; 8]; 2],
    sb: [[i16; 128]; 2],
)
    requires
        frame_encodable(f),
        nbits_in_range(nbits, spec_nchannels(f.mode), f.nsubbands as int),
        spec_nbits_row(nbits, 0, f.nsubbands as nat) + (if f.mode != SBC_MODE_MONO {
            spec_nbits_row(nbits, 1, f.nsubbands as nat)
        } else {
            0
        }) == f.bitpool * (if f.mode == SBC_MODE_DUAL_CHANNEL {
            2int
        } else {
            1int
        }),
    ensures
        spec_sample_fields(
            sb,
            sf,
            nbits,
            spec_nchannels(f.mode),
            f.nsubbands as int,
            (f.nblocks * spec_nchannels(f.mode) * f.nsubbands) as nat,
        ).1 == f.nblocks * (f.bitpool * (if f.mode == SBC_MODE_DUAL_CHANNEL {
            2int
        } else {
            1int
        })),
{
    let nch = spec_nchannels(f.mode);
    let nsb = f.nsubbands as int;
    let nb = f.nblocks as nat;
    let p = nch * nsb;
    assert(f.nblocks * nch * nsb == nb * p + 0) by (nonlinear_arith)
        requires
            p == nch * nsb,
            nb == f.nblocks,
    ;
    lemma_sample_fields_len(sb, sf, nbits, nch, nsb, (nb * p) as nat);
    lemma_nbits_total_blocks(nbits, nch, nsb, nb, 0);
    lemma_nbits_total_rows(nbits, nch, nsb, (nch - 1) as nat, nsb as nat);
    assert((nch - 1) * nsb + nsb == p) by (nonlinear_arith)
        requires
            p == nch * nsb,
    ;
    let total = spec_nbits_total(nbits, nch, nsb, p as nat);
    let budget = f.bitpool * (if f.mode == SBC_MODE_DUAL_CHANNEL {
        2int
    } else {
        1int
    });
    assert(total == budget);
}

/// A payload of `l` bits padded to whole bytes takes `(l + 7) / 8` bytes.
proof fn lemma_padded_bytes(l: nat)
    ensures
        l + spec_padding(l) == 8 * ((l + 7) / 8),
        (l + spec_padding(l)) % 8 == 0,
{
    lemma_fundamental_div_mod(l as int, 8);
    lemma_fundamental_div_mod(l + 7int, 8);
}

/// The value `a * 2^w + b` of a field `b` of `w` bits after `a` holds `a` above it.
proof fn lemma_high_part(a: int, w: nat, b: int)
    requires
        0 <= b < pow2(w),
    ensures
        (a * pow2(w) + b) / (pow2(w) as int) == a,
        (a * pow2(w) + b) % (pow2(w) as int) == b,
{
    lemma_pow2_pos(w);
    lemma_fundamental_div_mod_converse(a * pow2(w) + b, pow2(w) as int, a, b);
}

/// The scale factor fields of `k` positions, each of 4 bits, are below `2^(4k)`.
proof fn lemma_sf_fields_bound(sf: [[i32; 8]; 2], nsb: int, k: nat)
    requires
        nsb > 0,
        forall|t: int| 0 <= t < k ==> 0 <= #[trigger] sf[t / nsb][t % nsb] <= 15,
    ensures
        spec_sf_fields(sf, nsb, k) < pow2(4 * k),
    decreases k,
{
    lemma2_to64();
    if k > 0 {
        lemma_sf_fields_bound(sf, nsb, (k - 1) as nat);
        let t = k - 1;
        assert(0 <= sf[t / nsb][t % nsb] <= 15);
        lemma_pow2_adds((4 * (k - 1)) as nat, 4);
        let p = pow2((4 * (k - 1)) as nat) as int;
        let v = spec_sf_fields(sf, nsb, (k - 1) as nat) as int;
        assert(v * 16 + 15 < p * 16) by (nonlinear_arith)
            requires
                v < p,
        ;
    }
}

/// The field of position `t` of `n` scale factor fields.
proof fn lemma_sf_fields_digit(sf: [[i32; 8]; 2], nsb: int, n: nat, t: nat)
    requires
        nsb > 0,
        t < n,
        forall|j: int| 0 <= j < n ==> 0 <= #[trigger] sf[j / nsb][j % nsb] <= 15,
    ensures
        (spec_sf_fields(sf, nsb, n) / pow2((4 * (n - 1 - t)) as nat)) % 16 == sf[(t as int)
            / nsb][(t as int) % nsb],
    decreases n,
{
    lemma2_to64();
    let j = n - 1;
    let x = sf[j / nsb][j % nsb] as int;
    let v = spec_sf_fields(sf, nsb, (n - 1) as nat) as int;
    assert(0 <= x <= 15);
    lemma_high_part(v, 4, x);
    if t + 1 == n {
        assert(spec_sf_fields(sf, nsb, n) / pow2(0) == spec_sf_fields(sf, nsb, n));
    } else {
        lemma_sf_fields_digit(sf, nsb, (n - 1) as nat, t);
        let w = (4 * (n - 2 - t)) as nat;
        lemma_pow2_adds(4, w);
        lemma_pow2_pos(w);
        assert((4 * (n - 1 - t)) as nat == 4 + w);
        lemma_div_denominator(v * 16 + x, 16, pow2(w) as int);
    }
}

/// The joint-stereo flags of `k` subbands are below `2^k`.
proof fn lemma_joint_flags_bound(f: sbc_frame, sb: [[i16; 128]; 2], k: nat)
    ensures
        spec_joint_flags(f, sb, k) < pow2(k),
    decreases k,
{
    lemma2_to64();
    if k > 0 {
        lemma_joint_flags_bound(f, sb, (k - 1) as nat);
        lemma_pow2_unfold(k);
    }
}

/// The flag of subband `isb` among those of `k` subbands.
proof fn lemma_joint_flags_digit(f: sbc_frame, sb: [[i16; 128]; 2], k: nat, isb: nat)
    requires
        isb < k,
    ensures
        (spec_joint_flags(f, sb, k) / pow2((k - 1 - isb) as nat)) % 2 == if spec_is_joint(
            f,
            sb,
            isb as int,
        ) {
            1int
        } else {
            0int
        },
    decreases k,
{
    lemma2_to64();
    let v = spec_joint_flags(f, sb, (k - 1) as nat) as int;
    let x: int = if spec_is_joint(f, sb, k - 1) {
        1
    } else {
        0
    };
    lemma_high_part(v, 1, x);
    if isb + 1 == k {
        assert(spec_joint_flags(f, sb, k) / pow2(0) == spec_joint_flags(f, sb, k));
    } else {
        lemma_joint_flags_digit(f, sb, (k - 1) as nat, isb);
        let w = (k - 2 - isb) as nat;
        lemma_pow2_adds(1, w);
        lemma_pow2_pos(w);
        assert((k - 1 - isb) as nat == 1 + w);
        lemma_div_denominator(v * 2 + x, 2, pow2(w) as int);
    }
}

/// The sample fields are below two to the power of their number of bits.
proof fn lemma_sample_fields_bound(
    sb: [[i16; 128]; 2],
    sf: [[i32; 8]; 2],
    nbits: [[i32; 8]; 2],
    nch: int,
    nsb: int,
    k: nat,
)
    ensures
        spec_sample_fields(sb, sf, nbits, nch, nsb, k).0 < pow2(spec_sample_fields(sb, sf, nbits, nch, nsb, k).1),
    decreases k,
{
    lemma2_to64();
    if k > 0 {
        lemma_sample_fields_bound(sb, sf, nbits, nch, nsb, (k - 1) as nat);
        let p = spec_sample_fields(sb, sf, nbits, nch, nsb, (k - 1) as nat);
        let t = k - 1;
        let isb = t % nsb;
        let ich = (t / nsb) % nch;
        let nbit = nbits[ich][isb] as int;
        if nbit > 0 {
            let n = nbit as nat;
            lemma_pow2_pos(n);
            lemma_pow2_adds(p.1, n);
            let q = spec_quantize(
                sb[ich][((t / nsb) / nch) * nsb + isb] as int,
                sf[ich][isb] as int,
                nbit,
            ) % (pow2(n) as int);
            let a = p.0 as int;
            let pa = pow2(p.1) as int;
            let pn = pow2(n) as int;
            assert(a * pn + q < pa * pn) by (nonlinear_arith)
                requires
                    a < pa,
                    0 <= q < pn,
            ;
        }
    }
}

/// The bits of a payload `((x * 2^s + y) * 2^c)`, with `y` of `s` bits, above its last
/// `s + c` bits are `x`.
proof fn lemma_payload_head(x: nat, s: nat, y: nat, c: nat)
    requires
        y < pow2(s),
    ensures
        (((x * pow2(s) + y) * pow2(c)) as int) / (pow2(s + c) as int) == x,
{
    lemma_pow2_pos(c);
    lemma_pow2_adds(s, c);
    lemma_high_part((x * pow2(s) + y) as int, c, 0);
    lemma_div_denominator(((x * pow2(s) + y) * pow2(c)) as int, pow2(c) as int, pow2(s) as int);
    assert(pow2(c) * pow2(s) == pow2(s + c)) by (nonlinear_arith)
        requires
            pow2(s + c) == pow2(s) * pow2(c),
    ;
    lemma_high_part(x as int, s, y as int);
}

/// A field of the side information `x` of `w` bits that a payload
/// `(x * 2^s + y) * 2^c` starts with reads back from the stream the payload was written
/// to, after the header.
proof fn lemma_side_field(
    d: Seq<u8>,
    len: nat,
    value: nat,
    x: nat,
    w: nat,
    y: nat,
    s: nat,
    c: nat,
    a: nat,
    b: nat,
)
    requires
        bits_value(d, 32, len) == value,
        value == (x * pow2(s) + y) * pow2(c),
        y < pow2(s),
        len == w + s + c,
        a + b <= w,
    ensures
        bits_value(d, 32 + a as int, b) == ((x as int) / (pow2((w - a - b) as nat) as int)) % (pow2(b) as int),
{
    lemma_written_bits_read_back(d, 32, len, value, a, b);
    let m = (w - a - b) as nat;
    assert((len - a - b) as nat == m + (s + c));
    lemma_pow2_adds(m, s + c);
    lemma_pow2_pos(m);
    lemma_pow2_pos(s + c);
    lemma_payload_head(x, s, y, c);
    lemma_div_denominator(value as int, pow2(s + c) as int, pow2(m) as int);
    assert(pow2(s + c) * pow2(m) == pow2(m + (s + c))) by (nonlinear_arith)
        requires
            pow2(m + (s + c)) == pow2(m) * pow2(s + c),
    ;
}

/// The low `m + 4` bits of `hi * 2^q + lo`, with `m + 4 <= q`, are those of `lo`: the field
/// of 4 bits above the last `m` bits is that of `lo`.
proof fn lemma_low_field(hi: nat, q: nat, lo: nat, m: nat)
    requires
        m + 4 <= q,
    ensures
        (((hi * pow2(q) + lo) as int) / (pow2(m) as int)) % 16 == ((lo as int) / (pow2(m) as int)) % 16,
{
    let r = (q - m - 4) as nat;
    lemma_pow2_adds(m, (4 + r) as nat);
    lemma_pow2_adds(4, r);
    lemma_pow2_pos(m);
    lemma2_to64();
    let k = (hi * pow2(r)) as int;
    assert(hi * pow2(q) == (k * 16) * pow2(m)) by (nonlinear_arith)
        requires
            pow2(q) == pow2(m) * pow2((4 + r) as nat),
            pow2((4 + r) as nat) == pow2(4) * pow2(r),
            pow2(4) == 16,
            k == hi * pow2(r),
    ;
    lemma_hoist_over_denominator(lo as int, k * 16, pow2(m));
    lemma_mod_multiples_vanish(k, (lo as int) / (pow2(m) as int), 16);
}

/// The parts of the payload of a frame: its side information (joint-stereo flags, then
/// scale factors), its samples, and its padding.
pub open spec fn spec_payload_parts(f: sbc_frame, sb: [[i16; 128]; 2]) -> (nat, nat, nat, nat, nat) {
    let nch = spec_nchannels(f.mode);
    let nsb = f.nsubbands as int;
    let sf = spec_frame_scale_factors(f, sb);
    let jl: nat = if f.mode == SBC_MODE_JOINT_STEREO {
        nsb as nat
    } else {
        0
    };
    let sfl = (4 * nch * nsb) as nat;
    let smp = spec_sample_fields(
        spec_frame_coded(f, sb),
        sf,
        spec_frame_nbits(f, sf),
        nch,
        nsb,
        (f.nblocks * nch * nsb) as nat,
    );
    (
        spec_joint_flags(f, sb, jl) * pow2(sfl) + spec_sf_fields(sf, nsb, (nch * nsb) as nat),
        jl + sfl,
        smp.0,
        smp.1,
        spec_padding(jl + sfl + smp.1),
    )
}

/// The payload of a frame is its side information, then its samples, then its padding.
proof fn lemma_payload_parts(f: sbc_frame, sb: [[i16; 128]; 2])
    ensures
        ({
            let q = spec_payload_parts(f, sb);
            let p = spec_encoded_payload(f, sb);
            &&& p.0 == (q.0 * pow2(q.3) + q.2) * pow2(q.4)
            &&& p.1 == q.1 + q.3 + q.4
            &&& q.2 < pow2(q.3)
        }),
{
    let nch = spec_nchannels(f.mode);
    let nsb = f.nsubbands as int;
    let sf = spec_frame_scale_factors(f, sb);
    lemma_sample_fields_bound(
        spec_frame_coded(f, sb),
        sf,
        spec_frame_nbits(f, sf),
        nch,
        nsb,
        (f.nblocks * nch * nsb) as nat,
    );
}

/// Scale factor `s` of channel `c` of an encoded frame reads back as it was written.
proof fn lemma_scale_factor_reads_back(f: sbc_frame, sb: [[i16; 128]; 2], d: Seq<u8>, c: int, s: int)
    requires
        frame_encodable(f),
        scale_factors_in_range(
            spec_frame_scale_factors(f, sb),
            0,
            spec_nchannels(f.mode),
            f.nsubbands as int,
        ),
        bits_value(d, 32, spec_encoded_payload(f, sb).1) == spec_encoded_payload(f, sb).0,
        0 <= c < spec_nchannels(f.mode),
        0 <= s < f.nsubbands,
    ensures
        crate::decoder::frame::spec_scale_factor(d, 32, spec_header_of(f), c, s) == spec_frame_scale_factors(f, sb)[c][s],
{
    let h = spec_header_of(f);
    let nch = spec_nchannels(f.mode);
    let nsb = f.nsubbands as int;
    let sf = spec_frame_scale_factors(f, sb);
    let q = spec_payload_parts(f, sb);
    let p = spec_encoded_payload(f, sb);
    lemma_payload_parts(f, sb);
    lemma_raw_frame_valid(f);
    let jl: nat = if f.mode == SBC_MODE_JOINT_STEREO {
        nsb as nat
    } else {
        0
    };
    let n = (nch * nsb) as nat;
    let sfl = (4 * nch * nsb) as nat;
    assert(sfl == 4 * n) by (nonlinear_arith)
        requires
            sfl == 4 * nch * nsb,
            n == nch * nsb,
    ;
    let t = c * nsb + s;
    assert(0 <= t < n) by (nonlinear_arith)
        requires
            t == c * nsb + s,
            0 <= c < nch,
            0 <= s < nsb,
            n == nch * nsb,
    ;
    lemma_fundamental_div_mod_converse(t, nsb, c, s);
    assert forall|j: int| 0 <= j < n implies 0 <= #[trigger] sf[j / nsb][j % nsb] <= 15 by {
        lemma_fundamental_div_mod(j, nsb);
        assert(j / nsb < nch) by (nonlinear_arith)
            requires
                0 <= j < nch * nsb,
                nsb > 0,
        ;
    }
    let a = (jl + 4 * t) as nat;
    lemma_side_field(d, p.1, p.0, q.0, q.1, q.2, q.3, q.4, a, 4);
    let m = (4 * (n - 1 - t)) as nat;
    assert((q.1 - a - 4) as nat == m);
    lemma2_to64();
    let jv = spec_joint_flags(f, sb, jl);
    let sfv = spec_sf_fields(sf, nsb, n);
    lemma_low_field(jv, sfl, sfv, m);
    lemma_sf_fields_digit(sf, nsb, n, t as nat);
    assert(h.spec_channels() == nch);
    assert(crate::decoder::frame::spec_joint_bits(h) == jl);
}

/// Flag `isb` of an encoded joint-stereo frame reads back as it was written.
proof fn lemma_joint_flag_reads_back(f: sbc_frame, sb: [[i16; 128]; 2], d: Seq<u8>, isb: int)
    requires
        frame_encodable(f),
        f.mode == SBC_MODE_JOINT_STEREO,
        scale_factors_in_range(spec_frame_scale_factors(f, sb), 0, 2, f.nsubbands as int),
        bits_value(d, 32, spec_encoded_payload(f, sb).1) == spec_encoded_payload(f, sb).0,
        0 <= isb < f.nsubbands,
    ensures
        crate::decoder::frame::spec_joint(d, 32, spec_header_of(f), isb) == spec_is_joint(f, sb, isb),
{
    let nsb = f.nsubbands as int;
    let nch = spec_nchannels(f.mode);
    let q = spec_payload_parts(f, sb);
    let p = spec_encoded_payload(f, sb);
    lemma_payload_parts(f, sb);
    let sfl = (4 * nch * nsb) as nat;
    let jl = nsb as nat;
    let jv = spec_joint_flags(f, sb, jl);
    let sfv = spec_sf_fields(spec_frame_scale_factors(f, sb), nsb, (nch * nsb) as nat);
    lemma_side_field(d, p.1, p.0, q.0, q.1, q.2, q.3, q.4, isb as nat, 1);
    let m = (nsb - 1 - isb) as nat;
    assert((q.1 - isb - 1) as nat == m + sfl);
    lemma_pow2_adds(m, sfl);
    lemma_pow2_pos(m);
    lemma_pow2_pos(sfl);
    let sf = spec_frame_scale_factors(f, sb);
    assert forall|j: int| 0 <= j < 2 * nsb implies 0 <= #[trigger] sf[j / nsb][j % nsb] <= 15 by {
        lemma_fundamental_div_mod(j, nsb);
    }
    assert(sfl == 4 * (2 * nsb));
    lemma_sf_fields_bound(sf, nsb, (2 * nsb) as nat);
    lemma_high_part(jv as int, sfl, sfv as int);
    lemma_div_denominator(q.0 as int, pow2(sfl) as int, pow2(m) as int);
    assert(pow2(sfl) * pow2(m) == pow2(m + sfl)) by (nonlinear_arith)
        requires
            pow2(m + sfl) == pow2(m) * pow2(sfl),
    ;
    lemma_joint_flags_digit(f, sb, jl, isb as nat);
    lemma2_to64();
    assert(bits_value(d, 32 + isb, 1) == stream_bit(d, 32 + isb));
    lemma_raw_frame_valid(f);
}

/// The side information of an encoded frame reads back as it was written: after the
/// header the decoder finds the scale factors, and the joint-stereo flags, that the
/// encoder computed.
proof fn lemma_side_info_reads_back(f: sbc_frame, sb: [[i16; 128]; 2], d: Seq<u8>)
    requires
        frame_encodable(f),
        scale_factors_in_range(
            spec_frame_scale_factors(f, sb),
            0,
            spec_nchannels(f.mode),
            f.nsubbands as int,
        ),
        bits_value(d, 32, spec_encoded_payload(f, sb).1) == spec_encoded_payload(f, sb).0,
    ensures
        spec_frame_sf(d, 32, spec_header_of(f)) == spec_frame_scale_factors(f, sb),
        forall|isb: int|
            0 <= isb < f.nsubbands ==> #[trigger] crate::decoder::frame::spec_joint(
                d,
                32,
                spec_header_of(f),
                isb,
            ) == spec_is_joint(f, sb, isb),
{
    let h = spec_header_of(f);
    let sf = spec_frame_scale_factors(f, sb);
    lemma_raw_frame_valid(f);
    assert forall|c: int, s: int| 0 <= c < 2 && 0 <= s < 8 implies #[trigger] spec_frame_sf(d, 32, h)[c][s]
        == sf[c][s] by {
        lemma_spec_rows(
            |c: int, s: int|
                if c < h.spec_channels() && s < h.subbands {
                    crate::decoder::frame::spec_scale_factor(d, 32, h, c, s) as i32
                } else {
                    0i32
                },
            c,
            s,
        );
        reveal(spec_frame_scale_factors);
        lemma_spec_rows(
            |c: int, s: int|
                if c < spec_nchannels(f.mode) && s < f.nsubbands {
                    (if f.mode == SBC_MODE_JOINT_STEREO {
                        spec_js_scf(sb, c, f.nblocks as int, f.nsubbands as int, s)
                    } else {
                        spec_scf(sb, c, f.nblocks as int, f.nsubbands as int, s)
                    }) as i32
                } else {
                    0i32
                },
            c,
            s,
        );
        if c < spec_nchannels(f.mode) && s < f.nsubbands {
            lemma_scale_factor_reads_back(f, sb, d, c, s);
            assert(0 <= sf[c][s] <= 15);
        }
    }
    assert(spec_frame_sf(d, 32, h)[0] =~= sf[0]);
    assert(spec_frame_sf(d, 32, h)[1] =~= sf[1]);
    assert(spec_frame_sf(d, 32, h) =~= sf);
    assert forall|isb: int| 0 <= isb < f.nsubbands implies #[trigger] crate::decoder::frame::spec_joint(
        d,
        32,
        h,
        isb,
    ) == spec_is_joint(f, sb, isb) by {
        if f.mode == SBC_MODE_JOINT_STEREO {
            lemma_joint_flag_reads_back(f, sb, d, isb);
        }
    }
}

/// The field of `b` bits above the last `m` bits of `hi * 2^q + lo`, with `m + b <= q`,
/// is that of `lo`.
proof fn lemma_low_bits_field(hi: nat, q: nat, lo: nat, m: nat, b: nat)
    requires
        m + b <= q,
    ensures
        (((hi * pow2(q) + lo) as int) / (pow2(m) as int)) % (pow2(b) as int) == ((lo as int) / (
        pow2(m) as int)) % (pow2(b) as int),
{
    let r = (q - m - b) as nat;
    lemma_pow2_adds(m, (b + r) as nat);
    lemma_pow2_adds(b, r);
    lemma_pow2_pos(m);
    lemma_pow2_pos(b);
    let k = (hi * pow2(r)) as int;
    let pb = pow2(b) as int;
    assert(hi * pow2(q) == (k * pb) * pow2(m)) by (nonlinear_arith)
        requires
            pow2(q) == pow2(m) * pow2((b + r) as nat),
            pow2((b + r) as nat) == pow2(b) * pow2(r),
            k == hi * pow2(r),
            pb == pow2(b),
    ;
    lemma_hoist_over_denominator(lo as int, k * pb, pow2(m));
    lemma_mod_multiples_vanish(k, (lo as int) / (pow2(m) as int), pb);
}

/// The field of position `t` among the first `k` sample fields.
proof fn lemma_sample_fields_digit(
    sb: [[i16; 128]; 2],
    sf: [[i32; 8]; 2],
    nbits: [[i32; 8]; 2],
    nch: int,
    nsb: int,
    k: nat,
    t: nat,
)
    requires
        t < k,
        1 <= nch <= 2,
        nsb == 4 || nsb == 8,
        nbits_in_range(nbits, nch, nsb),
    ensures
        ({
            let all = spec_sample_fields(sb, sf, nbits, nch, nsb, k);
            let upto = spec_sample_fields(sb, sf, nbits, nch, nsb, (t + 1) as nat);
            let isb = (t as int) % nsb;
            let ich = ((t as int) / nsb) % nch;
            let iblk = ((t as int) / nsb) / nch;
            let nbit = nbits[ich][isb] as int;
            &&& upto.1 <= all.1
            &&& nbit > 0 ==> ((all.0 as int) / (pow2((all.1 - upto.1) as nat) as int)) % (pow2(
                nbit as nat,
            ) as int) == spec_quantize(sb[ich][iblk * nsb + isb] as int, sf[ich][isb] as int, nbit)
                % (pow2(nbit as nat) as int)
        }),
    decreases k,
{
    let prev = spec_sample_fields(sb, sf, nbits, nch, nsb, (k - 1) as nat);
    let j = k - 1;
    let jsb = j % nsb;
    let jch = (j / nsb) % nch;
    lemma_fundamental_div_mod(j / nsb, nch);
    let w = nbits[jch][jsb] as int;
    assert(0 <= w <= 16);
    lemma_sample_fields_bound(sb, sf, nbits, nch, nsb, (k - 1) as nat);
    if w > 0 {
        let x = spec_quantize(
            sb[jch][((j / nsb) / nch) * nsb + jsb] as int,
            sf[jch][jsb] as int,
            w,
        ) % (pow2(w as nat) as int);
        lemma_pow2_pos(w as nat);
        lemma_high_part(prev.0 as int, w as nat, x);
    }
    if t + 1 == k {
        lemma2_to64();
        let all = spec_sample_fields(sb, sf, nbits, nch, nsb, k);
        assert((all.0 as int) / (pow2(0) as int) == all.0);
    } else {
        lemma_sample_fields_digit(sb, sf, nbits, nch, nsb, (k - 1) as nat, t);
        if w > 0 {
            let upto = spec_sample_fields(sb, sf, nbits, nch, nsb, (t + 1) as nat);
            let m = (prev.1 - upto.1) as nat;
            let all = spec_sample_fields(sb, sf, nbits, nch, nsb, k);
            lemma_pow2_adds(w as nat, m);
            lemma_pow2_pos(m);
            assert((all.1 - upto.1) as nat == w as nat + m);
            lemma_div_denominator(all.0 as int, pow2(w as nat) as int, pow2(m) as int);
        }
    }
}

/// The bits of the samples of the first `n` subbands of channel `ich`, as the decoder
/// counts them, are those of the allocation `nbits` it agrees with.
proof fn lemma_row_nbits_eq(
    d: Seq<u8>,
    h: crate::decoder::SbcHeader,
    nbits: [[i32; 8]; 2],
    ich: int,
    n: nat,
)
    requires
        forall|s: int| 0 <= s < n ==> #[trigger] spec_frame_nbit(d, 32, h, ich, s) == nbits[ich][s],
    ensures
        spec_row_nbits(d, 32, h, ich, n) == spec_nbits_row(nbits, ich, n),
    decreases n,
{
    if n > 0 {
        lemma_row_nbits_eq(d, h, nbits, ich, (n - 1) as nat);
        assert(spec_frame_nbit(d, 32, h, ich, n - 1) == nbits[ich][n - 1]);
    }
}

/// Where the scale factors read back, the decoder finds the allocation of the encoder.
proof fn lemma_frame_nbit_eq(f: sbc_frame, sb: [[i16; 128]; 2], d: Seq<u8>, ich: int, isb: int)
    requires
        frame_encodable(f),
        spec_frame_sf(d, 32, spec_header_of(f)) == spec_frame_scale_factors(f, sb),
        0 <= ich < spec_nchannels(f.mode),
        0 <= isb < f.nsubbands,
    ensures
        spec_frame_nbit(d, 32, spec_header_of(f), ich, isb) == spec_frame_nbits(
            f,
            spec_frame_scale_factors(f, sb),
        )[ich][isb],
{
    let h = spec_header_of(f);
    let sf = spec_frame_scale_factors(f, sb);
    reveal(spec_frame_nbits);
    lemma_spec_rows(
        |c: int, s: int|
            if c < spec_nchannels(f.mode) && s < f.nsubbands {
                (if f.mode == SBC_MODE_DUAL_CHANNEL {
                    spec_nbit(h, sf, c, 0, s)
                } else {
                    spec_nbit(h, sf, 0, c, s)
                }) as i32
            } else {
                0i32
            },
        ich,
        isb,
    );
    lemma_raw_frame_valid(f);
    assert(0 <= spec_nbit(h, sf, ich, 0, isb) <= 16);
    assert(0 <= spec_nbit(h, sf, 0, ich, isb) <= 16);
}

/// The quantized value that the encoder writes for sample `isb` of channel `ich`, block
/// `iblk`, on the bits that its allocation gives it.
pub open spec fn spec_encoded_code(f: sbc_frame, sb: [[i16; 128]; 2], iblk: int, ich: int, isb: int) -> int {
    let sf = spec_frame_scale_factors(f, sb);
    let nbit = spec_frame_nbits(f, sf)[ich][isb] as int;
    spec_quantize(
        spec_frame_coded(f, sb)[ich][iblk * f.nsubbands + isb] as int,
        sf[ich][isb] as int,
        nbit,
    ) % (pow2(nbit as nat) as int)
}

/// The bits of the samples of a frame are at most 16.
proof fn lemma_frame_nbits_in_range(f: sbc_frame, sf: [[i32; 8]; 2])
    requires
        frame_encodable(f),
    ensures
        nbits_in_range(spec_frame_nbits(f, sf), spec_nchannels(f.mode), f.nsubbands as int),
{
    let h = spec_header_of(f);
    reveal(spec_frame_nbits);
    lemma_raw_frame_valid(f);
    assert forall|c: int, s: int| 0 <= c < spec_nchannels(f.mode) && 0 <= s < f.nsubbands implies 0
        <= #[trigger] spec_frame_nbits(f, sf)[c][s] <= 16 by {
        lemma_spec_rows(
            |c: int, s: int|
                if c < spec_nchannels(f.mode) && s < f.nsubbands {
                    (if f.mode == SBC_MODE_DUAL_CHANNEL {
                        spec_nbit(h, sf, c, 0, s)
                    } else {
                        spec_nbit(h, sf, 0, c, s)
                    }) as i32
                } else {
                    0i32
                },
            c,
            s,
        );
        assert(0 <= spec_nbit(h, sf, c, 0, s) <= 16);
        assert(0 <= spec_nbit(h, sf, 0, c, s) <= 16);
    }
}

/// Sample `isb` of channel `ich`, block `iblk`, of an encoded frame reads back as it was
/// written, where its scale factors read back: the decoder finds, at the position it
/// computes for it, the quantized value that the encoder wrote.
proof fn lemma_sample_reads_back(
    f: sbc_frame,
    sb: [[i16; 128]; 2],
    d: Seq<u8>,
    iblk: int,
    ich: int,
    isb: int,
)
    requires
        frame_encodable(f),
        bits_value(d, 32, spec_encoded_payload(f, sb).1) == spec_encoded_payload(f, sb).0,
        spec_frame_sf(d, 32, spec_header_of(f)) == spec_frame_scale_factors(f, sb),
        0 <= iblk < f.nblocks,
        0 <= ich < spec_nchannels(f.mode),
        0 <= isb < f.nsubbands,
    ensures
        bits_value(
            d,
            spec_sample_pos(d, 32, spec_header_of(f), iblk, ich, isb),
            spec_frame_nbit(d, 32, spec_header_of(f), ich, isb) as nat,
        ) == spec_encoded_code(f, sb, iblk, ich, isb),
{
    let h = spec_header_of(f);
    let nch = spec_nchannels(f.mode);
    let nsb = f.nsubbands as int;
    let nb = f.nblocks as int;
    let sf = spec_frame_scale_factors(f, sb);
    let nbits = spec_frame_nbits(f, sf);
    let coded = spec_frame_coded(f, sb);
    let q = spec_payload_parts(f, sb);
    let p = spec_encoded_payload(f, sb);
    lemma_payload_parts(f, sb);
    lemma_raw_frame_valid(f);
    lemma_frame_nbits_in_range(f, sf);
    let pp = nch * nsb;
    let k = (nb * nch * nsb) as nat;
    let t = (iblk * nch + ich) * nsb + isb;
    assert(0 <= t < k && t == iblk * pp + (ich * nsb + isb) && pp == nch * nsb) by (nonlinear_arith)
        requires
            t == (iblk * nch + ich) * nsb + isb,
            k == nb * nch * nsb,
            pp == nch * nsb,
            0 <= iblk < nb,
            0 <= ich < nch,
            0 <= isb < nsb,
    ;
    // The position of the sample among the samples, block by block, channel by channel.
    assert forall|c: int, s: int| 0 <= c < nch && 0 <= s < nsb implies #[trigger] spec_frame_nbit(
        d,
        32,
        h,
        c,
        s,
    ) == nbits[c][s] by {
        lemma_frame_nbit_eq(f, sb, d, c, s);
    }
    lemma_row_nbits_eq(d, h, nbits, 0, nsb as nat);
    lemma_row_nbits_eq(d, h, nbits, ich, isb as nat);
    if nch == 2 {
        lemma_row_nbits_eq(d, h, nbits, 1, nsb as nat);
    }
    lemma_nbits_total_rows(nbits, nch, nsb, (nch - 1) as nat, nsb as nat);
    assert((nch - 1) * nsb + nsb == pp) by (nonlinear_arith)
        requires
            pp == nch * nsb,
    ;
    lemma_nbits_total_blocks(nbits, nch, nsb, iblk as nat, (ich * nsb + isb) as nat);
    lemma_nbits_total_rows(nbits, nch, nsb, ich as nat, isb as nat);
    let before = spec_nbits_total(nbits, nch, nsb, t as nat);
    assert(h.spec_channels() == nch);
    assert(spec_sample_pos(d, 32, h, iblk, ich, isb) == 32 + q.1 + before) by {
        assert(4 * h.spec_channels() * h.subbands == 4 * nch * nsb);
    }
    // The field of the sample within the samples.
    let nbit = nbits[ich][isb] as int;
    lemma_sample_fields_len(coded, sf, nbits, nch, nsb, t as nat);
    lemma_sample_fields_len(coded, sf, nbits, nch, nsb, (t + 1) as nat);
    lemma_sample_fields_len(coded, sf, nbits, nch, nsb, k);
    lemma_fundamental_div_mod_converse(t, nsb, iblk * nch + ich, isb);
    lemma_fundamental_div_mod_converse(iblk * nch + ich, nch, iblk, ich);
    lemma_sample_fields_digit(coded, sf, nbits, nch, nsb, k, t as nat);
    let smp = spec_sample_fields(coded, sf, nbits, nch, nsb, k);
    let upto = spec_sample_fields(coded, sf, nbits, nch, nsb, (t + 1) as nat);
    assert(upto.1 == before + nbit);
    if nbit > 0 {
        let a = (q.1 + before) as nat;
        lemma_written_bits_read_back(d, 32, p.1, p.0, a, nbit as nat);
        let m = (smp.1 - upto.1) as nat;
        assert((p.1 - a - nbit) as nat == m + q.4);
        lemma_pow2_adds(m, q.4);
        lemma_pow2_pos(m);
        lemma_pow2_pos(q.4);
        lemma_high_part((q.0 * pow2(q.3) + q.2) as int, q.4, 0);
        lemma_div_denominator(p.0 as int, pow2(q.4) as int, pow2(m) as int);
        assert(pow2(q.4) * pow2(m) == pow2(m + q.4)) by (nonlinear_arith)
            requires
                pow2(m + q.4) == pow2(m) * pow2(q.4),
        ;
        lemma_low_bits_field(q.0, q.3, q.2, m, nbit as nat);
    } else {
        lemma2_to64();
        assert(spec_encoded_code(f, sb, iblk, ich, isb) == 0);
    }
}

} // verus!
