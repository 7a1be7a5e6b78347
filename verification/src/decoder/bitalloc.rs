use vstd::prelude::*;

use crate::decoder::{Bam, SbcHeader, MAX_CHANNELS, MAX_SUBBANDS};

verus! {

/// Offsets of the "Loudness" bit allocation, 4 subbands, by frequency.
pub const LOUDNESS_OFFSET_4: [[i32; 4]; 4] = [
    [-1, 0, 0, 0],
    [-2, 0, 0, 1],
    [-2, 0, 0, 1],
    [-2, 0, 0, 1],
];

/// Offsets of the "Loudness" bit allocation, 8 subbands, by frequency.
pub const LOUDNESS_OFFSET_8: [[i32; 8]; 4] = [
    [-2, 0, 0, 0, 0, 0, 0, 1],
    [-3, 0, 0, 0, 0, 0, 1, 2],
    [-4, 0, 0, 0, 0, 0, 1, 2],
    [-4, 0, 0, 0, 0, 0, 1, 2],
];

/// The loudness offset of subband `isb`.
pub open spec fn spec_loudness_offset(h: SbcHeader, isb: int) -> int {
    if h.subbands == 4 {
        LOUDNESS_OFFSET_4[h.freq.spec_code() as int][isb] as int
    } else {
        LOUDNESS_OFFSET_8[h.freq.spec_code() as int][isb] as int
    }
}

/// The bit need of a subband of scale factor `scf`.
pub open spec fn spec_bitneed(h: SbcHeader, scf: int, isb: int) -> int {
    match h.bam {
        Bam::Loudness => {
            let b = if scf == 0 {
                -5
            } else {
                scf - spec_loudness_offset(h, isb)
            };
            if b > 0 {
                b / 2
            } else {
                b
            }
        },
        Bam::Snr => scf,
    }
}

/// Number of channels that share one bit allocation: two in stereo modes, else one.
pub open spec fn spec_alloc_channels(h: SbcHeader) -> int {
    if h.mode.spec_is_stereo() {
        2
    } else {
        1
    }
}

/// The bit need of channel `ch0 + ich`, subband `isb`.
pub open spec fn spec_bn(h: SbcHeader, sf: [[i32; 8]; 2], ch0: int, ich: int, isb: int) -> int {
    spec_bitneed(h, sf[ch0 + ich][isb] as int, isb)
}

/// Bits a subband receives when the bit slice leaves it `x` bits of need: none below two,
/// at most sixteen.
pub open spec fn spec_slice_bits(x: int) -> int {
    if x < 2 {
        0
    } else if x > 16 {
        16
    } else {
        x
    }
}

/// Bits of the first `n` subbands of channel `ich` at bit slice `t`.
pub open spec fn row_bits(h: SbcHeader, sf: [[i32; 8]; 2], ch0: int, t: int, ich: int, n: nat) -> int
    decreases n,
{
    if n == 0 {
        0
    } else {
        row_bits(h, sf, ch0, t, ich, (n - 1) as nat) + spec_slice_bits(
            spec_bn(h, sf, ch0, ich, n - 1) - t,
        )
    }
}

/// Bits of the first `m` channels at bit slice `t`.
pub open spec fn total_bits_upto(h: SbcHeader, sf: [[i32; 8]; 2], ch0: int, t: int, m: nat) -> int
    decreases m,
{
    if m == 0 {
        0
    } else {
        total_bits_upto(h, sf, ch0, t, (m - 1) as nat) + row_bits(
            h,
            sf,
            ch0,
            t,
            m - 1,
            h.subbands as nat,
        )
    }
}

/// Bits of all subbands at bit slice `t`.
pub open spec fn spec_total_bits(h: SbcHeader, sf: [[i32; 8]; 2], ch0: int, t: int) -> int {
    total_bits_upto(h, sf, ch0, t, spec_alloc_channels(h) as nat)
}

/// The largest bit need of the first `n` subbands of channel `ich`, and zero.
pub open spec fn row_max(h: SbcHeader, sf: [[i32; 8]; 2], ch0: int, ich: int, n: nat) -> int
    decreases n,
{
    if n == 0 {
        0
    } else {
        let m = row_max(h, sf, ch0, ich, (n - 1) as nat);
        let b = spec_bn(h, sf, ch0, ich, n - 1);
        if b > m {
            b
        } else {
            m
        }
    }
}

/// The largest bit need of the first `m` channels, and zero.
pub open spec fn max_upto(h: SbcHeader, sf: [[i32; 8]; 2], ch0: int, m: nat) -> int
    decreases m,
{
    if m == 0 {
        0
    } else {
        let a = max_upto(h, sf, ch0, (m - 1) as nat);
        let b = row_max(h, sf, ch0, m - 1, h.subbands as nat);
        if b > a {
            b
        } else {
            a
        }
    }
}

/// The largest bit need, and zero.
pub open spec fn spec_max_bitneed(h: SbcHeader, sf: [[i32; 8]; 2], ch0: int) -> int {
    max_upto(h, sf, ch0, spec_alloc_channels(h) as nat)
}

/// The bit slice: the one that fits the bitpool while the next does not.
pub open spec fn spec_bitslice(h: SbcHeader, sf: [[i32; 8]; 2], ch0: int) -> int {
    if h.bitpool == 0 {
        spec_max_bitneed(h, sf, ch0) + 1
    } else {
        choose|t: int|
            #[trigger] spec_total_bits(h, sf, ch0, t) < h.bitpool <= spec_total_bits(h, sf, ch0, t - 1)
    }
}

/// Position of channel `ich`, subband `isb` in the order of the final distribution:
/// subband by subband, channel by channel.
pub open spec fn spec_flat(nch: int, ich: int, isb: int) -> int {
    (if nch == 1 {
        isb
    } else {
        2 * isb
    }) + ich
}

/// The channel at position `k` of the final distribution.
pub open spec fn flat_ch(nch: int, k: int) -> int {
    if nch == 1 {
        0
    } else {
        k % 2
    }
}

/// The subband at position `k` of the final distribution.
pub open spec fn flat_sb(nch: int, k: int) -> int {
    if nch == 1 {
        k
    } else {
        k / 2
    }
}

/// The bit need at position `k` of the final distribution.
pub open spec fn bn_flat(h: SbcHeader, sf: [[i32; 8]; 2], ch0: int, k: int) -> int {
    let nch = spec_alloc_channels(h);
    spec_bn(h, sf, ch0, flat_ch(nch, k), flat_sb(nch, k))
}

/// Bits at position `k` from the bit slice alone.
pub open spec fn base_flat(h: SbcHeader, sf: [[i32; 8]; 2], ch0: int, k: int) -> int {
    spec_slice_bits(bn_flat(h, sf, ch0, k) - spec_bitslice(h, sf, ch0))
}

/// Bits the first pass of leftover distribution adds at position `k`, with `bc` bits spent.
pub open spec fn step1(h: SbcHeader, sf: [[i32; 8]; 2], ch0: int, bc: int, k: int) -> int {
    let bitpool = h.bitpool as int;
    let b = base_flat(h, sf, ch0, k);
    if bc >= bitpool {
        0
    } else if b != 0 && b < 16 {
        1
    } else if bn_flat(h, sf, ch0, k) == spec_bitslice(h, sf, ch0) + 1 && bitpool > bc + 1 {
        2
    } else {
        0
    }
}

/// Bits spent after the first pass went through `k` positions.
pub open spec fn phase1_count(h: SbcHeader, sf: [[i32; 8]; 2], ch0: int, k: nat) -> int
    decreases k,
{
    if k == 0 {
        spec_total_bits(h, sf, ch0, spec_bitslice(h, sf, ch0))
    } else {
        let c = phase1_count(h, sf, ch0, (k - 1) as nat);
        c + step1(h, sf, ch0, c, k - 1)
    }
}

/// Number of positions of the distribution.
pub open spec fn spec_positions(h: SbcHeader) -> int {
    spec_flat(spec_alloc_channels(h), 0, h.subbands as int)
}

/// Bits after the first pass at position `k`.
pub open spec fn after1(h: SbcHeader, sf: [[i32; 8]; 2], ch0: int, k: int) -> int {
    base_flat(h, sf, ch0, k) + step1(h, sf, ch0, phase1_count(h, sf, ch0, k as nat), k)
}

/// Bits the second pass adds at position `k`, with `bc` bits spent.
pub open spec fn step2(h: SbcHeader, sf: [[i32; 8]; 2], ch0: int, bc: int, k: int) -> int {
    if bc >= h.bitpool {
        0
    } else if after1(h, sf, ch0, k) < 16 {
        1
    } else {
        0
    }
}

/// Bits spent after the second pass went through `k` positions.
pub open spec fn phase2_count(h: SbcHeader, sf: [[i32; 8]; 2], ch0: int, k: nat) -> int
    decreases k,
{
    if k == 0 {
        phase1_count(h, sf, ch0, spec_positions(h) as nat)
    } else {
        let c = phase2_count(h, sf, ch0, (k - 1) as nat);
        c + step2(h, sf, ch0, c, k - 1)
    }
}

/// The number of bits of channel `ch0 + ich`, subband `isb`.
pub open spec fn spec_nbit(h: SbcHeader, sf: [[i32; 8]; 2], ch0: int, ich: int, isb: int) -> int {
    let k = spec_flat(spec_alloc_channels(h), ich, isb);
    after1(h, sf, ch0, k) + step2(h, sf, ch0, phase2_count(h, sf, ch0, k as nat), k)
}

/// The scale factors of the channels of an allocation are in range.
pub open spec fn scale_factors_in_range(sf: [[i32; 8]; 2], ch0: int, nch: int, nsb: int) -> bool {
    forall|c: int, s: int| ch0 <= c < ch0 + nch && 0 <= s < nsb ==> 0 <= #[trigger] sf[c][s] <= 15
}


/// A bit need is between -5 and 15.
proof fn lemma_bitneed_range(h: SbcHeader, scf: int, isb: int)
    requires
        0 <= scf <= 15,
        0 <= isb < h.subbands,
        h.subbands == 4 || h.subbands == 8,
    ensures
        -5 <= spec_bitneed(h, scf, isb) <= 15,
{
    let f = h.freq.spec_code() as int;
    assert(0 <= f < 4);
    if h.subbands == 4 {
        assert(-2 <= LOUDNESS_OFFSET_4[f][isb] <= 1);
    } else {
        assert(-4 <= LOUDNESS_OFFSET_8[f][isb] <= 2);
    }
}

/// The loudness offset of subband `isb` as the tables give it, by frequency code.
pub open spec fn table_loudness_offset(freq: nat, subbands: int, isb: int) -> int {
    if subbands == 4 {
        LOUDNESS_OFFSET_4[freq as int][isb] as int
    } else {
        LOUDNESS_OFFSET_8[freq as int][isb] as int
    }
}

/// The bit need of a subband: with the SNR method its scale factor; with the loudness
/// method `-5` for a zero scale factor, else the scale factor less the loudness offset of
/// the subband from the tables, halved (rounding down) when positive.
pub proof fn lemma_bitneed_of_tables(h: SbcHeader, scf: int, isb: int)
    requires
        h.subbands == 4 || h.subbands == 8,
        0 <= isb < h.subbands,
    ensures
        h.bam == Bam::Snr ==> spec_bitneed(h, scf, isb) == scf,
        h.bam == Bam::Loudness && scf == 0 ==> spec_bitneed(h, scf, isb) == -5,
        h.bam == Bam::Loudness && scf != 0 ==> {
            let x = scf - table_loudness_offset(h.freq.spec_code(), h.subbands as int, isb);
            &&& x > 0 ==> 2 * spec_bitneed(h, scf, isb) <= x < 2 * spec_bitneed(h, scf, isb) + 2
            &&& x <= 0 ==> spec_bitneed(h, scf, isb) == x
        },
{
}

/// With the loudness method, of two subbands with the same nonzero scale factor, the one
/// whose loudness offset is smaller needs at least as many bits; two steps of offset
/// apart, strictly more while the need is positive.
pub proof fn lemma_loudness_offset_lowers_need(h: SbcHeader, scf: int, i: int, j: int)
    requires
        h.subbands == 4 || h.subbands == 8,
        h.bam == Bam::Loudness,
        scf != 0,
        0 <= i < h.subbands,
        0 <= j < h.subbands,
        spec_loudness_offset(h, i) <= spec_loudness_offset(h, j),
    ensures
        spec_bitneed(h, scf, i) >= spec_bitneed(h, scf, j),
        spec_loudness_offset(h, i) + 2 <= spec_loudness_offset(h, j) && scf
            - spec_loudness_offset(h, j) > 0 ==> spec_bitneed(h, scf, i) > spec_bitneed(h, scf, j),
{
}

/// The bits at a bit slice do not grow with the slice.
proof fn lemma_row_bits_mono(h: SbcHeader, sf: [[i32; 8]; 2], ch0: int, t1: int, t2: int, ich: int, n: nat)
    requires
        t1 <= t2,
    ensures
        row_bits(h, sf, ch0, t2, ich, n) <= row_bits(h, sf, ch0, t1, ich, n),
    decreases n,
{
    if n > 0 {
        lemma_row_bits_mono(h, sf, ch0, t1, t2, ich, (n - 1) as nat);
    }
}

/// The bits at a bit slice do not grow with the slice.
proof fn lemma_total_bits_mono(h: SbcHeader, sf: [[i32; 8]; 2], ch0: int, t1: int, t2: int, m: nat)
    requires
        t1 <= t2,
    ensures
        total_bits_upto(h, sf, ch0, t2, m) <= total_bits_upto(h, sf, ch0, t1, m),
    decreases m,
{
    if m > 0 {
        lemma_total_bits_mono(h, sf, ch0, t1, t2, (m - 1) as nat);
        lemma_row_bits_mono(h, sf, ch0, t1, t2, m - 1, h.subbands as nat);
    }
}

/// Every bit need of a channel is at most its largest.
proof fn lemma_row_max(h: SbcHeader, sf: [[i32; 8]; 2], ch0: int, ich: int, n: nat)
    ensures
        row_max(h, sf, ch0, ich, n) >= 0,
        forall|isb: int| 0 <= isb < n ==> spec_bn(h, sf, ch0, ich, isb) <= row_max(h, sf, ch0, ich, n),
    decreases n,
{
    if n > 0 {
        lemma_row_max(h, sf, ch0, ich, (n - 1) as nat);
    }
}

/// Every bit need is at most the largest.
proof fn lemma_max_upto(h: SbcHeader, sf: [[i32; 8]; 2], ch0: int, m: nat)
    ensures
        max_upto(h, sf, ch0, m) >= 0,
        forall|ich: int, isb: int|
            0 <= ich < m && 0 <= isb < h.subbands ==> spec_bn(h, sf, ch0, ich, isb) <= max_upto(
                h,
                sf,
                ch0,
                m,
            ),
    decreases m,
{
    if m > 0 {
        lemma_max_upto(h, sf, ch0, (m - 1) as nat);
        lemma_row_max(h, sf, ch0, m - 1, h.subbands as nat);
    }
}

/// The largest bit need is at most 15.
proof fn lemma_max_upto_le(h: SbcHeader, sf: [[i32; 8]; 2], ch0: int, m: nat)
    requires
        forall|ich: int, isb: int|
            0 <= ich < m && 0 <= isb < h.subbands ==> spec_bn(h, sf, ch0, ich, isb) <= 15,
    ensures
        max_upto(h, sf, ch0, m) <= 15,
    decreases m,
{
    if m > 0 {
        lemma_max_upto_le(h, sf, ch0, (m - 1) as nat);
        lemma_row_max_le(h, sf, ch0, m - 1, h.subbands as nat);
    }
}

/// The largest bit need of a channel is at most 15.
proof fn lemma_row_max_le(h: SbcHeader, sf: [[i32; 8]; 2], ch0: int, ich: int, n: nat)
    requires
        forall|isb: int| 0 <= isb < n ==> spec_bn(h, sf, ch0, ich, isb) <= 15,
    ensures
        row_max(h, sf, ch0, ich, n) <= 15,
    decreases n,
{
    if n > 0 {
        lemma_row_max_le(h, sf, ch0, ich, (n - 1) as nat);
    }
}

/// No bits at a slice at or above every bit need.
proof fn lemma_row_bits_zero(h: SbcHeader, sf: [[i32; 8]; 2], ch0: int, t: int, ich: int, n: nat)
    requires
        forall|isb: int| 0 <= isb < n ==> spec_bn(h, sf, ch0, ich, isb) <= t,
    ensures
        row_bits(h, sf, ch0, t, ich, n) == 0,
    decreases n,
{
    if n > 0 {
        lemma_row_bits_zero(h, sf, ch0, t, ich, (n - 1) as nat);
    }
}

/// No bits at a slice at or above the largest bit need.
proof fn lemma_total_bits_zero(h: SbcHeader, sf: [[i32; 8]; 2], ch0: int, t: int, m: nat)
    requires
        forall|ich: int, isb: int|
            0 <= ich < m && 0 <= isb < h.subbands ==> spec_bn(h, sf, ch0, ich, isb) <= t,
    ensures
        total_bits_upto(h, sf, ch0, t, m) == 0,
    decreases m,
{
    if m > 0 {
        lemma_total_bits_zero(h, sf, ch0, t, (m - 1) as nat);
        lemma_row_bits_zero(h, sf, ch0, t, m - 1, h.subbands as nat);
    }
}

/// Sixteen bits per subband at a slice sixteen below every bit need.
proof fn lemma_row_bits_full(h: SbcHeader, sf: [[i32; 8]; 2], ch0: int, t: int, ich: int, n: nat)
    requires
        forall|isb: int| 0 <= isb < n ==> spec_bn(h, sf, ch0, ich, isb) >= t + 16,
    ensures
        row_bits(h, sf, ch0, t, ich, n) == 16 * n,
    decreases n,
{
    if n > 0 {
        lemma_row_bits_full(h, sf, ch0, t, ich, (n - 1) as nat);
    }
}

/// The bit needs of an allocation are between -5 and 15.
proof fn lemma_bn_range(h: SbcHeader, sf: [[i32; 8]; 2], ch0: int)
    requires
        h.subbands == 4 || h.subbands == 8,
        scale_factors_in_range(sf, ch0, spec_alloc_channels(h), h.subbands as int),
    ensures
        forall|ich: int, isb: int|
            0 <= ich < spec_alloc_channels(h) && 0 <= isb < h.subbands ==> -5 <= #[trigger] spec_bn(
                h,
                sf,
                ch0,
                ich,
                isb,
            ) <= 15,
{
    assert forall|ich: int, isb: int|
        0 <= ich < spec_alloc_channels(h) && 0 <= isb < h.subbands implies -5
        <= #[trigger] spec_bn(h, sf, ch0, ich, isb) <= 15 by {
        assert(0 <= sf[ch0 + ich][isb] <= 15);
        lemma_bitneed_range(h, sf[ch0 + ich][isb] as int, isb);
    }
}

/// All bits at a slice far enough below the bit needs.
proof fn lemma_total_bits_full(h: SbcHeader, sf: [[i32; 8]; 2], ch0: int, t: int)
    requires
        h.subbands == 4 || h.subbands == 8,
        scale_factors_in_range(sf, ch0, spec_alloc_channels(h), h.subbands as int),
        t <= -21,
    ensures
        spec_total_bits(h, sf, ch0, t) == 16 * spec_alloc_channels(h) * h.subbands,
{
    lemma_bn_range(h, sf, ch0);
    let n = h.subbands as nat;
    lemma_row_bits_full(h, sf, ch0, t, 0, n);
    if spec_alloc_channels(h) == 2 {
        lemma_row_bits_full(h, sf, ch0, t, 1, n);
    }
    reveal_with_fuel(total_bits_upto, 3);
}

/// Lowering the slice by one adds these bits to a subband of need `bn`.
proof fn lemma_slice_step(bn: int, bs: int)
    ensures
        spec_slice_bits(bn - (bs - 2)) - spec_slice_bits(bn - (bs - 1)) == (if bn >= bs && bn < bs
            + 15 {
            1int
        } else {
            0int
        }) + (if bn == bs {
            1int
        } else {
            0int
        }),
{
}

/// The bit slice of a positive bitpool is the one that fits while the next does not.
proof fn lemma_bitslice_unique(h: SbcHeader, sf: [[i32; 8]; 2], ch0: int, t: int)
    requires
        h.bitpool > 0,
        spec_total_bits(h, sf, ch0, t) < h.bitpool <= spec_total_bits(h, sf, ch0, t - 1),
    ensures
        spec_bitslice(h, sf, ch0) == t,
{
    let m = spec_alloc_channels(h) as nat;
    let u = spec_bitslice(h, sf, ch0);
    assert(spec_total_bits(h, sf, ch0, u) < h.bitpool <= spec_total_bits(h, sf, ch0, u - 1));
    if u < t {
        lemma_total_bits_mono(h, sf, ch0, u, t - 1, m);
    } else if t < u {
        lemma_total_bits_mono(h, sf, ch0, t, u - 1, m);
    }
}

/// Position and channel/subband correspond.
proof fn lemma_flat(nch: int, ich: int, isb: int)
    requires
        nch == 1 || nch == 2,
        0 <= ich < nch,
        0 <= isb,
    ensures
        flat_ch(nch, spec_flat(nch, ich, isb)) == ich,
        flat_sb(nch, spec_flat(nch, ich, isb)) == isb,
{
    if nch == 2 {
        vstd::arithmetic::div_mod::lemma_fundamental_div_mod_converse(2 * isb + ich, 2, isb, ich);
    }
}

/// Once the bitpool is spent, the first pass adds nothing more.
proof fn lemma_phase1_spent(h: SbcHeader, sf: [[i32; 8]; 2], ch0: int, k: nat, j: nat)
    requires
        phase1_count(h, sf, ch0, k) >= h.bitpool,
        k <= j,
    ensures
        phase1_count(h, sf, ch0, j) == phase1_count(h, sf, ch0, k),
    decreases j - k,
{
    if k < j {
        lemma_phase1_spent(h, sf, ch0, k, (j - 1) as nat);
    }
}

/// Once the bitpool is spent, the second pass adds nothing more.
proof fn lemma_phase2_spent(h: SbcHeader, sf: [[i32; 8]; 2], ch0: int, k: nat, j: nat)
    requires
        phase2_count(h, sf, ch0, k) >= h.bitpool,
        k <= j,
    ensures
        phase2_count(h, sf, ch0, j) == phase2_count(h, sf, ch0, k),
    decreases j - k,
{
    if k < j {
        lemma_phase2_spent(h, sf, ch0, k, (j - 1) as nat);
    }
}

/// The value at position `k` before pass `pass` (1 or 2) of leftover distribution.
pub open spec fn before_pass(h: SbcHeader, sf: [[i32; 8]; 2], ch0: int, k: int, pass: int) -> int {
    if pass == 1 {
        base_flat(h, sf, ch0, k)
    } else {
        after1(h, sf, ch0, k)
    }
}

/// The value at position `k` after pass `pass` (1 or 2) of leftover distribution.
pub open spec fn after_pass(h: SbcHeader, sf: [[i32; 8]; 2], ch0: int, k: int, pass: int) -> int {
    if pass == 1 {
        after1(h, sf, ch0, k)
    } else {
        after1(h, sf, ch0, k) + step2(h, sf, ch0, phase2_count(h, sf, ch0, k as nat), k)
    }
}

/// The distribution array while pass `pass` has gone through `k` positions: the channels of
/// the allocation hold the pass's values, the others their earlier values `orig`.
pub open spec fn pass_inv(
    h: SbcHeader,
    sf: [[i32; 8]; 2],
    ch0: int,
    a: [[i32; 8]; 2],
    orig: [[i32; 8]; 2],
    k: int,
    pass: int,
) -> bool {
    let nch = spec_alloc_channels(h);
    &&& forall|i: int, s: int|
        0 <= i < nch && 0 <= s < h.subbands ==> #[trigger] a[ch0 + i][s] == if spec_flat(
            nch,
            i,
            s,
        ) < k {
            after_pass(h, sf, ch0, spec_flat(nch, i, s), pass)
        } else {
            before_pass(h, sf, ch0, spec_flat(nch, i, s), pass)
        }
    &&& forall|c: int, s: int|
        0 <= c < 2 && 0 <= s < 8 && !(ch0 <= c < ch0 + nch && s < h.subbands) ==> #[trigger] a[c][s]
            == orig[c][s]
}

/// The value at the current position while a pass goes on.
proof fn lemma_pass_inv_at(
    h: SbcHeader,
    sf: [[i32; 8]; 2],
    ch0: int,
    a: [[i32; 8]; 2],
    orig: [[i32; 8]; 2],
    k: int,
    pass: int,
    ich: int,
    isb: int,
)
    requires
        pass_inv(h, sf, ch0, a, orig, k, pass),
        0 <= ich < spec_alloc_channels(h),
        0 <= isb < h.subbands,
        k == spec_flat(spec_alloc_channels(h), ich, isb),
    ensures
        a[ch0 + ich][isb] == before_pass(h, sf, ch0, k, pass),
{
}

/// One position of a pass.
proof fn lemma_pass_inv_step(
    h: SbcHeader,
    sf: [[i32; 8]; 2],
    ch0: int,
    a: [[i32; 8]; 2],
    b: [[i32; 8]; 2],
    orig: [[i32; 8]; 2],
    k: int,
    pass: int,
    ich: int,
    isb: int,
)
    requires
        pass_inv(h, sf, ch0, a, orig, k, pass),
        pass == 1 || pass == 2,
        0 <= ich < spec_alloc_channels(h),
        spec_alloc_channels(h) + ch0 <= 2,
        0 <= ch0,
        0 <= isb < h.subbands <= 8,
        k == spec_flat(spec_alloc_channels(h), ich, isb),
        b[ch0 + ich][isb] == after_pass(h, sf, ch0, k, pass),
        forall|c: int, s: int|
            0 <= c < 2 && 0 <= s < 8 && !(c == ch0 + ich && s == isb) ==> #[trigger] b[c][s]
                == a[c][s],
    ensures
        pass_inv(h, sf, ch0, b, orig, k + 1, pass),
{
    let nch = spec_alloc_channels(h);
    assert forall|i: int, s: int| 0 <= i < nch && 0 <= s < h.subbands implies #[trigger] b[ch0
        + i][s] == if spec_flat(nch, i, s) < k + 1 {
        after_pass(h, sf, ch0, spec_flat(nch, i, s), pass)
    } else {
        before_pass(h, sf, ch0, spec_flat(nch, i, s), pass)
    } by {
        if i != ich || s != isb {
            assert(b[ch0 + i][s] == a[ch0 + i][s]);
            assert(spec_flat(nch, i, s) != k);
        }
    }
}

/// A pass that stopped at `k` leaves the later positions as they were.
proof fn lemma_pass_inv_done(
    h: SbcHeader,
    sf: [[i32; 8]; 2],
    ch0: int,
    a: [[i32; 8]; 2],
    orig: [[i32; 8]; 2],
    k: int,
    pass: int,
)
    requires
        pass_inv(h, sf, ch0, a, orig, k, pass),
        pass == 1 || pass == 2,
        0 <= k <= spec_positions(h),
        k < spec_positions(h) ==> (if pass == 1 {
            phase1_count(h, sf, ch0, k as nat) >= h.bitpool
        } else {
            phase2_count(h, sf, ch0, k as nat) >= h.bitpool
        }),
    ensures
        pass_inv(h, sf, ch0, a, orig, spec_positions(h), pass),
{
    let nch = spec_alloc_channels(h);
    assert forall|i: int, s: int| 0 <= i < nch && 0 <= s < h.subbands implies #[trigger] a[ch0
        + i][s] == if spec_flat(nch, i, s) < spec_positions(h) {
        after_pass(h, sf, ch0, spec_flat(nch, i, s), pass)
    } else {
        before_pass(h, sf, ch0, spec_flat(nch, i, s), pass)
    } by {
        let j = spec_flat(nch, i, s);
        assert(j < spec_positions(h));
        if j >= k {
            if pass == 1 {
                lemma_phase1_spent(h, sf, ch0, k as nat, j as nat);
            } else {
                lemma_phase2_spent(h, sf, ch0, k as nat, j as nat);
            }
        }
    }
}

/// Computes the bit distribution of the channels that share an allocation, starting at
/// channel `ch0`: all channels in stereo modes, one channel otherwise.
pub fn compute_nbits(
    header: &SbcHeader,
    scale_factors: &[[i32; MAX_SUBBANDS]; MAX_CHANNELS],
    nbits: &mut [[i32; MAX_SUBBANDS]; MAX_CHANNELS],
    ch0: usize,
)
    requires
        header.subbands == 4 || header.subbands == 8,
        ch0 + spec_alloc_channels(*header) <= 2,
        scale_factors_in_range(
            *scale_factors,
            ch0 as int,
            spec_alloc_channels(*header),
            header.subbands as int,
        ),
        header.bitpool <= 16 * spec_alloc_channels(*header) * header.subbands,
    ensures
        forall|ich: int, isb: int|
            0 <= ich < spec_alloc_channels(*header) && 0 <= isb < header.subbands
                ==> #[trigger] final(nbits)[ch0 + ich][isb] == spec_nbit(
                *header,
                *scale_factors,
                ch0 as int,
                ich,
                isb,
            ),
        forall|c: int, s: int|
            0 <= c < 2 && 0 <= s < 8 && !(ch0 <= c < ch0 + spec_alloc_channels(*header) && s
                < header.subbands) ==> #[trigger] final(nbits)[c][s] == old(nbits)[c][s],
        spec_allocated_bits(*header, *scale_factors, ch0 as int) == header.bitpool,
{
    let ghost h = *header;
    let ghost sf = *scale_factors;
    let ghost c0 = ch0 as int;

    /* --- Compute the number of bits needed --- */
    let f = header.freq.code();
    let lo4 = LOUDNESS_OFFSET_4[f];
    let lo8 = LOUDNESS_OFFSET_8[f];

    let subbands = header.subbands as usize;
    let channels: usize = if header.mode.is_stereo() {
        2
    } else {
        1
    };
    let ghost nch = channels as int;

    let mut bitneeds = [[0i32; MAX_SUBBANDS]; MAX_CHANNELS];
    let mut max_bitneed: i32 = 0;

    proof {
        lemma_bn_range(h, sf, c0);
    }
    let mut ich: usize = 0;
    while ich < channels
        invariant
            0 <= ich <= channels,
            channels == spec_alloc_channels(h),
            subbands == h.subbands,
            h == *header,
            sf == *scale_factors,
            c0 == ch0,
            ch0 + channels <= 2,
            h.subbands == 4 || h.subbands == 8,
            lo4 == LOUDNESS_OFFSET_4[f as int],
            lo8 == LOUDNESS_OFFSET_8[f as int],
            f == h.freq.spec_code(),
            scale_factors_in_range(sf, c0, nch, h.subbands as int),
            nch == channels,
            forall|i: int, s: int|
                0 <= i < channels && 0 <= s < h.subbands ==> -5 <= #[trigger] spec_bn(
                    h,
                    sf,
                    c0,
                    i,
                    s,
                ) <= 15,
            forall|i: int, s: int|
                0 <= i < ich && 0 <= s < subbands ==> #[trigger] bitneeds[i][s] == spec_bn(
                    h,
                    sf,
                    c0,
                    i,
                    s,
                ),
            max_bitneed == max_upto(h, sf, c0, ich as nat),
        decreases channels - ich,
    {
        proof {
            lemma_max_upto(h, sf, c0, ich as nat);
        }
        let mut isb: usize = 0;
        while isb < subbands
            invariant
                0 <= ich < channels,
                0 <= isb <= subbands,
                channels == spec_alloc_channels(h),
                subbands == h.subbands,
                h == *header,
                sf == *scale_factors,
                c0 == ch0,
                ch0 + channels <= 2,
                h.subbands == 4 || h.subbands == 8,
                lo4 == LOUDNESS_OFFSET_4[f as int],
                lo8 == LOUDNESS_OFFSET_8[f as int],
                f == h.freq.spec_code(),
                scale_factors_in_range(sf, c0, nch, h.subbands as int),
                nch == channels,
                forall|i: int, s: int|
                    0 <= i < channels && 0 <= s < h.subbands ==> -5 <= #[trigger] spec_bn(
                        h,
                        sf,
                        c0,
                        i,
                        s,
                    ) <= 15,
                forall|i: int, s: int|
                    (0 <= i < ich && 0 <= s < subbands) || (i == ich && 0 <= s < isb)
                        ==> #[trigger] bitneeds[i][s] == spec_bn(h, sf, c0, i, s),
                max_upto(h, sf, c0, ich as nat) >= 0,
                max_bitneed == if row_max(h, sf, c0, ich as int, isb as nat) > max_upto(
                    h,
                    sf,
                    c0,
                    ich as nat,
                ) {
                    row_max(h, sf, c0, ich as int, isb as nat)
                } else {
                    max_upto(h, sf, c0, ich as nat)
                },
            decreases subbands - isb,
        {
            assert(0 <= sf[(ch0 + ich) as int][isb as int] <= 15);
            let scf = scale_factors[ch0 + ich][isb];
            let bitneed = match header.bam {
                Bam::Loudness => {
                    let offset = if subbands == 4 {
                        lo4[isb]
                    } else {
                        lo8[isb]
                    };
                    let bitneed = if scf == 0 {
                        -5
                    } else {
                        scf - offset
                    };
                    assert(bitneed > 0 ==> (bitneed >> 1u32) == bitneed / 2) by (bit_vector);
                    assert((bitneed >> 0u32) == bitneed) by (bit_vector);
                    bitneed >> (if bitneed > 0 {
                        1u32
                    } else {
                        0u32
                    })
                },
                Bam::Snr => scf,
            };
            assert(bitneed == spec_bn(h, sf, c0, ich as int, isb as int));
            if bitneed > max_bitneed {
                max_bitneed = bitneed;
            }
            bitneeds[ich][isb] = bitneed;
            isb += 1;
        }
        proof {
            lemma_row_max(h, sf, c0, ich as int, h.subbands as nat);
        }
        ich += 1;
    }

    /* --- Loop over the bit distribution, until reaching the bitpool --- */
    let bitpool = header.bitpool as usize;
    assert(16 * nch * h.subbands <= 256) by (nonlinear_arith)
        requires
            nch <= 2,
            h.subbands <= 8,
    ;
    proof {
        lemma_max_upto(h, sf, c0, nch as nat);
        lemma_max_upto_le(h, sf, c0, nch as nat);
    }

    let mut bitcount: usize = 0;
    let mut bitslice: i32 = max_bitneed + 1;
    let mut bc: usize = 0;

    proof {
        lemma_max_upto(h, sf, c0, nch as nat);
        lemma_max_upto_le(h, sf, c0, nch as nat);
        lemma_total_bits_zero(h, sf, c0, max_bitneed as int, nch as nat);
        lemma_total_bits_zero(h, sf, c0, max_bitneed + 1, nch as nat);
    }
    while bc < bitpool
        invariant
            channels == spec_alloc_channels(h),
            subbands == h.subbands,
            h == *header,
            sf == *scale_factors,
            c0 == ch0,
            h.subbands == 4 || h.subbands == 8,
            scale_factors_in_range(sf, c0, nch, h.subbands as int),
            nch == channels,
            bitpool == h.bitpool,
            bitpool <= 16 * nch * h.subbands,
            forall|i: int, s: int|
                0 <= i < channels && 0 <= s < subbands ==> #[trigger] bitneeds[i][s] == spec_bn(
                    h,
                    sf,
                    c0,
                    i,
                    s,
                ),
            forall|i: int, s: int|
                0 <= i < channels && 0 <= s < h.subbands ==> -5 <= #[trigger] spec_bn(
                    h,
                    sf,
                    c0,
                    i,
                    s,
                ) <= 15,
            -20 <= bitslice <= max_bitneed + 1,
            max_bitneed == spec_max_bitneed(h, sf, c0),
            0 <= max_bitneed <= 15,
            16 * nch * h.subbands <= 256,
            bc == spec_total_bits(h, sf, c0, bitslice - 1),
            bitcount == spec_total_bits(h, sf, c0, bitslice as int),
            bitpool > 0 ==> bitcount < bitpool,
            bitpool == 0 ==> bitslice == max_bitneed + 1,
        ensures
            bc >= bitpool,
            bc == spec_total_bits(h, sf, c0, bitslice - 1),
            bitcount == spec_total_bits(h, sf, c0, bitslice as int),
            bitpool > 0 ==> bitcount < bitpool,
            bitpool == 0 ==> bitslice == max_bitneed + 1,
            -20 <= bitslice <= 16,
        decreases bitslice + 20,
    {
        proof {
            if bitslice - 1 <= -21 {
                lemma_total_bits_full(h, sf, c0, bitslice - 1);
            }
        }
        let bs = bitslice;
        bitslice -= 1;
        bitcount = bc;
        if bitcount == bitpool {
            break;
        }
        let ghost bc0 = bc;
        let mut ich: usize = 0;
        while ich < channels
            invariant
                0 <= ich <= channels,
                channels == spec_alloc_channels(h),
                subbands == h.subbands,
                h.subbands == 4 || h.subbands == 8,
                forall|i: int, s: int|
                    0 <= i < channels && 0 <= s < subbands ==> #[trigger] bitneeds[i][s]
                        == spec_bn(h, sf, c0, i, s),
                forall|i: int, s: int|
                    0 <= i < channels && 0 <= s < h.subbands ==> -5 <= #[trigger] spec_bn(
                        h,
                        sf,
                        c0,
                        i,
                        s,
                    ) <= 15,
                -19 <= bs <= 16,
                bc == bc0 + total_bits_upto(h, sf, c0, bs - 2, ich as nat) - total_bits_upto(
                    h,
                    sf,
                    c0,
                    bs - 1,
                    ich as nat,
                ),
                bc0 <= 256,
                bc <= bc0 + 16 * ich,
                channels <= 2,
            decreases channels - ich,
        {
            let mut isb: usize = 0;
            while isb < subbands
                invariant
                    0 <= ich < channels,
                    0 <= isb <= subbands,
                    channels == spec_alloc_channels(h),
                    subbands == h.subbands,
                    h.subbands == 4 || h.subbands == 8,
                    forall|i: int, s: int|
                        0 <= i < channels && 0 <= s < subbands ==> #[trigger] bitneeds[i][s]
                            == spec_bn(h, sf, c0, i, s),
                    forall|i: int, s: int|
                        0 <= i < channels && 0 <= s < h.subbands ==> -5 <= #[trigger] spec_bn(
                            h,
                            sf,
                            c0,
                            i,
                            s,
                        ) <= 15,
                    -19 <= bs <= 16,
                    bc == bc0 + total_bits_upto(h, sf, c0, bs - 2, ich as nat) - total_bits_upto(
                        h,
                        sf,
                        c0,
                        bs - 1,
                        ich as nat,
                    ) + row_bits(h, sf, c0, bs - 2, ich as int, isb as nat) - row_bits(
                        h,
                        sf,
                        c0,
                        bs - 1,
                        ich as int,
                        isb as nat,
                    ),
                    bc0 <= 256,
                    bc <= bc0 + 16 * ich + 2 * isb,
                    channels <= 2,
                decreases subbands - isb,
            {
                let bn = bitneeds[ich][isb];
                proof {
                    lemma_slice_step(bn as int, bs as int);
                }
                bc += (if bn >= bs && bn < bs + 15 {
                    1
                } else {
                    0
                }) + (if bn == bs {
                    1
                } else {
                    0
                });
                isb += 1;
            }
            ich += 1;
        }
    }
    let ghost bslice = bitslice as int;
    proof {
        if bitpool > 0 {
            lemma_bitslice_unique(h, sf, c0, bslice);
        }
        assert(bslice == spec_bitslice(h, sf, c0));
    }

    /* --- Bits distribution --- */
    let ghost npos = spec_positions(h);
    let ghost nb0 = *nbits;
    let mut ich: usize = 0;
    while ich < channels
        invariant
            0 <= ich <= channels,
            channels == spec_alloc_channels(h),
            subbands == h.subbands,
            h.subbands == 4 || h.subbands == 8,
            ch0 + channels <= 2,
            c0 == ch0,
            bslice == spec_bitslice(h, sf, c0),
            bitslice == bslice,
            -20 <= bitslice <= 16,
            forall|i: int, s: int|
                0 <= i < channels && 0 <= s < subbands ==> #[trigger] bitneeds[i][s] == spec_bn(
                    h,
                    sf,
                    c0,
                    i,
                    s,
                ),
            forall|i: int, s: int|
                0 <= i < channels && 0 <= s < h.subbands ==> -5 <= #[trigger] spec_bn(
                    h,
                    sf,
                    c0,
                    i,
                    s,
                ) <= 15,
            forall|i: int, s: int|
                0 <= i < ich && 0 <= s < subbands ==> #[trigger] nbits[ch0 + i][s]
                    == spec_slice_bits(spec_bn(h, sf, c0, i, s) - bslice),
            forall|c: int, s: int|
                0 <= c < 2 && 0 <= s < 8 && !(ch0 <= c < ch0 + ich && s < subbands)
                    ==> #[trigger] nbits[c][s] == nb0[c][s],
        decreases channels - ich,
    {
        let mut isb: usize = 0;
        while isb < subbands
            invariant
                0 <= ich < channels,
                0 <= isb <= subbands,
                channels == spec_alloc_channels(h),
                subbands == h.subbands,
                h.subbands == 4 || h.subbands == 8,
                ch0 + channels <= 2,
                c0 == ch0,
                bitslice == bslice,
                -20 <= bitslice <= 16,
                forall|i: int, s: int|
                    0 <= i < channels && 0 <= s < subbands ==> #[trigger] bitneeds[i][s]
                        == spec_bn(h, sf, c0, i, s),
                forall|i: int, s: int|
                    0 <= i < channels && 0 <= s < h.subbands ==> -5 <= #[trigger] spec_bn(
                        h,
                        sf,
                        c0,
                        i,
                        s,
                    ) <= 15,
                forall|i: int, s: int|
                    ((0 <= i < ich && 0 <= s < subbands) || (i == ich && 0 <= s < isb))
                        ==> #[trigger] nbits[ch0 + i][s] == spec_slice_bits(
                        spec_bn(h, sf, c0, i, s) - bslice,
                    ),
                forall|c: int, s: int|
                    0 <= c < 2 && 0 <= s < 8 && !(ch0 <= c < ch0 + ich && s < subbands) && !(c
                        == ch0 + ich && s < isb) ==> #[trigger] nbits[c][s] == nb0[c][s],
            decreases subbands - isb,
        {
            let nbit = bitneeds[ich][isb] - bitslice;
            nbits[ch0 + ich][isb] = if nbit < 2 {
                0
            } else if nbit > 16 {
                16
            } else {
                nbit
            };
            isb += 1;
        }
        ich += 1;
    }

    /* --- Allocate remaining bits --- */
    proof {
        assert forall|i: int, s: int|
            0 <= i < channels && 0 <= s < subbands implies #[trigger] nbits[ch0 + i][s]
            == base_flat(h, sf, c0, spec_flat(nch, i, s)) by {
            lemma_flat(nch, i, s);
        }
        assert(pass_inv(h, sf, c0, *nbits, nb0, 0, 1));
    }
    let mut isb: usize = 0;
    let ghost mut k: int = 0;
    while isb < subbands && bitcount < bitpool
        invariant
            0 <= isb <= subbands,
            channels == spec_alloc_channels(h),
            nch == channels,
            subbands == h.subbands,
            h.subbands == 4 || h.subbands == 8,
            ch0 + channels <= 2,
            c0 == ch0,
            bitpool == h.bitpool,
            bitpool <= 256,
            bitslice == bslice,
            bslice == spec_bitslice(h, sf, c0),
            -20 <= bitslice <= 16,
            0 <= k <= spec_flat(nch, 0, isb as int),
            bitcount < bitpool ==> k == spec_flat(nch, 0, isb as int),
            bitcount == phase1_count(h, sf, c0, k as nat),
            forall|i: int, s: int|
                0 <= i < channels && 0 <= s < subbands ==> #[trigger] bitneeds[i][s] == spec_bn(
                    h,
                    sf,
                    c0,
                    i,
                    s,
                ),
            pass_inv(h, sf, c0, *nbits, nb0, k, 1),
        decreases subbands - isb,
    {
        let mut ich: usize = 0;
        while ich < channels && bitcount < bitpool
            invariant
                0 <= isb < subbands,
                0 <= ich <= channels,
                channels == spec_alloc_channels(h),
                nch == channels,
                subbands == h.subbands,
                h.subbands == 4 || h.subbands == 8,
                ch0 + channels <= 2,
                c0 == ch0,
                bitpool == h.bitpool,
                bitpool <= 256,
                bitslice == bslice,
                bslice == spec_bitslice(h, sf, c0),
                -20 <= bitslice <= 16,
                0 <= k,
                k == spec_flat(nch, ich as int, isb as int),
                bitcount == phase1_count(h, sf, c0, k as nat),
                forall|i: int, s: int|
                    0 <= i < channels && 0 <= s < subbands ==> #[trigger] bitneeds[i][s]
                        == spec_bn(h, sf, c0, i, s),
                pass_inv(h, sf, c0, *nbits, nb0, k, 1),
            decreases channels - ich,
        {
            proof {
                lemma_flat(nch, ich as int, isb as int);
                lemma_pass_inv_at(h, sf, c0, *nbits, nb0, k, 1, ich as int, isb as int);
            }
            let ghost before = *nbits;
            let n = if nbits[ch0 + ich][isb] != 0 && nbits[ch0 + ich][isb] < 16 {
                1
            } else if bitneeds[ich][isb] == bitslice + 1 && bitpool > bitcount + 1 {
                2
            } else {
                0
            };
            nbits[ch0 + ich][isb] += n;
            bitcount += n as usize;
            proof {
                lemma_pass_inv_step(h, sf, c0, before, *nbits, nb0, k, 1, ich as int, isb as int);
                k = k + 1;
            }
            ich += 1;
        }
        isb += 1;
    }
    proof {
        assert(k <= npos);
        if k < npos {
            lemma_phase1_spent(h, sf, c0, k as nat, npos as nat);
        }
        lemma_pass_inv_done(h, sf, c0, *nbits, nb0, k, 1);
        assert(pass_inv(h, sf, c0, *nbits, nb0, 0, 2));
    }
    assert(bitcount == phase2_count(h, sf, c0, 0));

    let mut isb: usize = 0;
    let ghost mut k: int = 0;
    while isb < subbands && bitcount < bitpool
        invariant
            0 <= isb <= subbands,
            channels == spec_alloc_channels(h),
            nch == channels,
            subbands == h.subbands,
            h.subbands == 4 || h.subbands == 8,
            ch0 + channels <= 2,
            c0 == ch0,
            bitpool == h.bitpool,
            bitpool <= 256,
            0 <= k <= spec_flat(nch, 0, isb as int),
            bitcount < bitpool ==> k == spec_flat(nch, 0, isb as int),
            bitcount == phase2_count(h, sf, c0, k as nat),
            pass_inv(h, sf, c0, *nbits, nb0, k, 2),
        decreases subbands - isb,
    {
        let mut ich: usize = 0;
        while ich < channels && bitcount < bitpool
            invariant
                0 <= isb < subbands,
                0 <= ich <= channels,
                channels == spec_alloc_channels(h),
                nch == channels,
                subbands == h.subbands,
                h.subbands == 4 || h.subbands == 8,
                ch0 + channels <= 2,
                c0 == ch0,
                bitpool == h.bitpool,
                bitpool <= 256,
                0 <= k,
                k == spec_flat(nch, ich as int, isb as int),
                bitcount == phase2_count(h, sf, c0, k as nat),
                pass_inv(h, sf, c0, *nbits, nb0, k, 2),
            decreases channels - ich,
        {
            proof {
                lemma_flat(nch, ich as int, isb as int);
                lemma_pass_inv_at(h, sf, c0, *nbits, nb0, k, 2, ich as int, isb as int);
            }
            let ghost before = *nbits;
            let n: i32 = if nbits[ch0 + ich][isb] < 16 {
                1
            } else {
                0
            };
            nbits[ch0 + ich][isb] += n;
            bitcount += n as usize;
            proof {
                lemma_pass_inv_step(h, sf, c0, before, *nbits, nb0, k, 2, ich as int, isb as int);
                k = k + 1;
            }
            ich += 1;
        }
        isb += 1;
    }
    proof {
        assert(k <= npos);
        lemma_pass_inv_done(h, sf, c0, *nbits, nb0, k, 2);
        lemma_allocation_spends_bitpool(h, sf, c0);
    }
}

/// The sum of `g` over the first `m` positions.
pub open spec fn flat_sum(g: spec_fn(int) -> int, m: nat) -> int
    decreases m,
{
    if m == 0 {
        0
    } else {
        flat_sum(g, (m - 1) as nat) + g(m - 1)
    }
}

/// The sum of `g` over the positions of the first `n` subbands of channel `ich`.
pub open spec fn row_sum(g: spec_fn(int) -> int, nch: int, ich: int, n: nat) -> int
    decreases n,
{
    if n == 0 {
        0
    } else {
        row_sum(g, nch, ich, (n - 1) as nat) + g(spec_flat(nch, ich, n - 1))
    }
}

/// Summing over the positions of the distribution, subband by subband, or channel by
/// channel, gives the same.
proof fn lemma_flat_sum_rows(g: spec_fn(int) -> int, nch: int, n: nat)
    requires
        nch == 1 || nch == 2,
    ensures
        flat_sum(g, spec_flat(nch, 0, n as int) as nat) == row_sum(g, nch, 0, n) + if nch == 2 {
            row_sum(g, nch, 1, n)
        } else {
            0
        },
    decreases n,
{
    if n > 0 {
        lemma_flat_sum_rows(g, nch, (n - 1) as nat);
        if nch == 2 {
            let m = spec_flat(2, 0, n - 1);
            assert(flat_sum(g, (m + 1) as nat) == flat_sum(g, m as nat) + g(m));
            assert(flat_sum(g, (m + 2) as nat) == flat_sum(g, (m + 1) as nat) + g(m + 1));
        }
    }
}

/// The bits of position `k` of the distribution.
pub open spec fn spec_nbit_flat(h: SbcHeader, sf: [[i32; 8]; 2], ch0: int, k: int) -> int {
    after1(h, sf, ch0, k) + step2(h, sf, ch0, phase2_count(h, sf, ch0, k as nat), k)
}

/// The bits an allocation hands out: those of all subbands of the channels that share it.
pub open spec fn spec_allocated_bits(h: SbcHeader, sf: [[i32; 8]; 2], ch0: int) -> int {
    row_sum(|k: int| spec_nbit_flat(h, sf, ch0, k), spec_alloc_channels(h), 0, h.subbands as nat)
        + (if spec_alloc_channels(h) == 2 {
        row_sum(|k: int| spec_nbit_flat(h, sf, ch0, k), 2, 1, h.subbands as nat)
    } else {
        0
    })
}

/// The bits of each position at bit slice `t`.
pub open spec fn slice_bits_at(h: SbcHeader, sf: [[i32; 8]; 2], ch0: int, t: int) -> spec_fn(
    int,
) -> int {
    |k: int| spec_slice_bits(bn_flat(h, sf, ch0, k) - t)
}

/// The bits of each position after the first pass.
pub open spec fn after1_at(h: SbcHeader, sf: [[i32; 8]; 2], ch0: int) -> spec_fn(int) -> int {
    |k: int| after1(h, sf, ch0, k)
}

/// The bits of the first `m` positions are those of the bit slice plus what both passes
/// added.
proof fn lemma_spent_upto(h: SbcHeader, sf: [[i32; 8]; 2], ch0: int, m: nat)
    ensures
        flat_sum(|k: int| spec_nbit_flat(h, sf, ch0, k), m) == flat_sum(
            slice_bits_at(h, sf, ch0, spec_bitslice(h, sf, ch0)),
            m,
        ) + phase1_count(h, sf, ch0, m) - phase1_count(h, sf, ch0, 0) + phase2_count(h, sf, ch0, m)
            - phase2_count(h, sf, ch0, 0),
        flat_sum(after1_at(h, sf, ch0), m) == flat_sum(
            slice_bits_at(h, sf, ch0, spec_bitslice(h, sf, ch0)),
            m,
        ) + phase1_count(h, sf, ch0, m) - phase1_count(h, sf, ch0, 0),
    decreases m,
{
    if m > 0 {
        lemma_spent_upto(h, sf, ch0, (m - 1) as nat);
    }
}

/// Neither pass spends more than the bitpool, once the bit slice does not.
proof fn lemma_passes_within_bitpool(h: SbcHeader, sf: [[i32; 8]; 2], ch0: int, k: nat)
    requires
        phase1_count(h, sf, ch0, 0) <= h.bitpool,
    ensures
        phase1_count(h, sf, ch0, k) <= h.bitpool,
        phase2_count(h, sf, ch0, k) <= h.bitpool,
    decreases k,
{
    if k > 0 {
        lemma_passes_within_bitpool(h, sf, ch0, (k - 1) as nat);
    } else {
        lemma_passes_within_bitpool_1(h, sf, ch0, spec_positions(h) as nat);
    }
}

/// The first pass does not spend more than the bitpool, once the bit slice does not.
proof fn lemma_passes_within_bitpool_1(h: SbcHeader, sf: [[i32; 8]; 2], ch0: int, k: nat)
    requires
        phase1_count(h, sf, ch0, 0) <= h.bitpool,
    ensures
        phase1_count(h, sf, ch0, k) <= h.bitpool,
    decreases k,
{
    if k > 0 {
        lemma_passes_within_bitpool_1(h, sf, ch0, (k - 1) as nat);
    }
}

/// The bits at bit slice `t` along a row of positions are those of the row.
proof fn lemma_row_sum_slice(h: SbcHeader, sf: [[i32; 8]; 2], ch0: int, t: int, ich: int, m: nat)
    requires
        0 <= ich < spec_alloc_channels(h),
    ensures
        row_sum(slice_bits_at(h, sf, ch0, t), spec_alloc_channels(h), ich, m) == row_bits(
            h,
            sf,
            ch0,
            t,
            ich,
            m,
        ),
    decreases m,
{
    if m > 0 {
        lemma_row_sum_slice(h, sf, ch0, t, ich, (m - 1) as nat);
        lemma_flat(spec_alloc_channels(h), ich, m - 1);
    }
}

/// The bits at bit slice `t` over all positions are its total.
proof fn lemma_flat_sum_slice(h: SbcHeader, sf: [[i32; 8]; 2], ch0: int, t: int)
    ensures
        flat_sum(slice_bits_at(h, sf, ch0, t), spec_positions(h) as nat) == spec_total_bits(
            h,
            sf,
            ch0,
            t,
        ),
{
    let nch = spec_alloc_channels(h);
    let n = h.subbands as nat;
    lemma_flat_sum_rows(slice_bits_at(h, sf, ch0, t), nch, n);
    lemma_row_sum_slice(h, sf, ch0, t, 0, n);
    if nch == 2 {
        lemma_row_sum_slice(h, sf, ch0, t, 1, n);
    }
    reveal_with_fuel(total_bits_upto, 3);
}

/// Some bit slice fits the bitpool while the next does not, when a positive bitpool is
/// within what the subbands can take and slice `t` fits it.
proof fn lemma_bitslice_found(h: SbcHeader, sf: [[i32; 8]; 2], ch0: int, t: int)
    requires
        h.subbands == 4 || h.subbands == 8,
        scale_factors_in_range(sf, ch0, spec_alloc_channels(h), h.subbands as int),
        h.bitpool <= 16 * spec_alloc_channels(h) * h.subbands,
        spec_total_bits(h, sf, ch0, t) < h.bitpool,
    ensures
        exists|u: int|
            #[trigger] spec_total_bits(h, sf, ch0, u) < h.bitpool <= spec_total_bits(
                h,
                sf,
                ch0,
                u - 1,
            ),
    decreases t + 21,
{
    if t <= -21 {
        lemma_total_bits_full(h, sf, ch0, t);
    } else if spec_total_bits(h, sf, ch0, t - 1) >= h.bitpool {
        assert(spec_total_bits(h, sf, ch0, t) < h.bitpool <= spec_total_bits(h, sf, ch0, t - 1));
    } else {
        lemma_bitslice_found(h, sf, ch0, t - 1);
    }
}

/// The first pass spends all but at most one bit of what the bitpool leaves over the bit
/// slice, or as much as the next slice down would give.
proof fn lemma_phase1_reaches(h: SbcHeader, sf: [[i32; 8]; 2], ch0: int, k: nat)
    ensures
        phase1_count(h, sf, ch0, k) >= h.bitpool - 1 || phase1_count(h, sf, ch0, k)
            >= phase1_count(h, sf, ch0, 0) + flat_sum(
            slice_bits_at(h, sf, ch0, spec_bitslice(h, sf, ch0) - 1),
            k,
        ) - flat_sum(slice_bits_at(h, sf, ch0, spec_bitslice(h, sf, ch0)), k),
    decreases k,
{
    if k > 0 {
        let j = k - 1;
        lemma_phase1_reaches(h, sf, ch0, j as nat);
        let t = spec_bitslice(h, sf, ch0);
        let bn = bn_flat(h, sf, ch0, j);
        lemma_slice_step(bn, t + 1);
        assert(slice_bits_at(h, sf, ch0, t - 1)(j) - slice_bits_at(h, sf, ch0, t)(j) == (if bn
            >= t + 1 && bn < t + 16 {
            1int
        } else {
            0int
        }) + (if bn == t + 1 {
            1int
        } else {
            0int
        }));
    }
}

/// While the second pass has not reached the bitpool, starting one bit short, every
/// position it went through already had sixteen bits.
proof fn lemma_phase2_short(h: SbcHeader, sf: [[i32; 8]; 2], ch0: int, k: nat)
    requires
        phase2_count(h, sf, ch0, 0) >= h.bitpool - 1,
        phase2_count(h, sf, ch0, k) < h.bitpool,
    ensures
        phase2_count(h, sf, ch0, k) == phase2_count(h, sf, ch0, 0),
        forall|j: int| 0 <= j < k ==> #[trigger] after1(h, sf, ch0, j) >= 16,
    decreases k,
{
    if k > 0 {
        lemma_phase2_short(h, sf, ch0, (k - 1) as nat);
    }
}

/// A sum of values of at least sixteen.
proof fn lemma_flat_sum_sixteen(g: spec_fn(int) -> int, m: nat)
    requires
        forall|j: int| 0 <= j < m ==> #[trigger] g(j) >= 16,
    ensures
        flat_sum(g, m) >= 16 * m,
    decreases m,
{
    if m > 0 {
        lemma_flat_sum_sixteen(g, (m - 1) as nat);
    }
}

/// An allocation hands out exactly its bitpool: the bits of all subbands of the channels
/// that share it add up to the bitpool, whenever the bitpool is within what those
/// subbands can take, sixteen bits each.
pub proof fn lemma_allocation_spends_bitpool(h: SbcHeader, sf: [[i32; 8]; 2], ch0: int)
    requires
        h.subbands == 4 || h.subbands == 8,
        0 <= ch0,
        ch0 + spec_alloc_channels(h) <= 2,
        scale_factors_in_range(sf, ch0, spec_alloc_channels(h), h.subbands as int),
        h.bitpool <= 16 * spec_alloc_channels(h) * h.subbands,
    ensures
        spec_allocated_bits(h, sf, ch0) == h.bitpool,
{
    let nch = spec_alloc_channels(h);
    let n = h.subbands as nat;
    let p = spec_positions(h) as nat;
    let t = spec_bitslice(h, sf, ch0);
    let bitpool = h.bitpool as int;
    lemma_flat_sum_rows(|k: int| spec_nbit_flat(h, sf, ch0, k), nch, n);
    lemma_spent_upto(h, sf, ch0, p);
    lemma_flat_sum_slice(h, sf, ch0, t);
    lemma_max_upto(h, sf, ch0, nch as nat);
    let top = spec_max_bitneed(h, sf, ch0) + 1;
    lemma_total_bits_zero(h, sf, ch0, top, nch as nat);
    assert(16 * nch * h.subbands == 16 * p);
    if bitpool == 0 {
        lemma_phase1_spent(h, sf, ch0, 0, p);
        lemma_phase2_spent(h, sf, ch0, 0, p);
    } else {
        lemma_bitslice_found(h, sf, ch0, top);
        assert(spec_total_bits(h, sf, ch0, t) < bitpool <= spec_total_bits(h, sf, ch0, t - 1));
        lemma_flat_sum_slice(h, sf, ch0, t - 1);
        lemma_phase1_reaches(h, sf, ch0, p);
        lemma_passes_within_bitpool(h, sf, ch0, p);
        if phase2_count(h, sf, ch0, p) < bitpool {
            lemma_phase2_short(h, sf, ch0, p);
            lemma_flat_sum_sixteen(after1_at(h, sf, ch0), p);
        }
    }
}

} // verus!
