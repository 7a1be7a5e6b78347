use vstd::arithmetic::div_mod::*;
use vstd::arithmetic::power2::*;
use vstd::prelude::*;

use crate::decoder::frame::lemma_i32_shr;
use crate::decoder::{view_holds, BufferView};

verus! {

/// `cos(i * pi / 8)` for `i` in `0..4`, in fixed point 0.13.
pub const COS8: [i32; 4] = [8192, 7568, 5793, 3135];

/// `cos(i * pi / 16)` for `i` in `0..8`, in fixed point 0.13.
pub const COS16: [i32; 8] = [8192, 8035, 7568, 6811, 5793, 4551, 3135, 1598];

/// `v` saturated to the range of 16-bit samples.
pub open spec fn spec_sat16(v: int) -> i16 {
    if v < i16::MIN {
        i16::MIN
    } else if v > i16::MAX {
        i16::MAX
    } else {
        v as i16
    }
}

/// `x / 2^shr` rounded to the nearest integer, halves rounded up.
pub open spec fn spec_round_shr(x: int, shr: int) -> int {
    (x + pow2((shr - 1) as nat)) / (pow2(shr as nat) as int)
}

/// Saturates a value to 16 bits.
pub fn sat16(v: i32) -> (r: i16)
    ensures
        r == spec_sat16(v as int),
{
    if v < i16::MIN as i32 {
        i16::MIN
    } else if v > i16::MAX as i32 {
        i16::MAX
    } else {
        v as i16
    }
}

/// The product of two 16-bit values on 32 bits.
pub fn widened_mul(pair: (&i16, &i16)) -> (r: i32)
    ensures
        r == *pair.0 as int * *pair.1 as int,
        -0x4000_0000 < r <= 0x4000_0000,
{
    proof {
        lemma_mul_i16_bound(*pair.0 as int, *pair.1 as int);
    }
    (*pair.0 as i32) * (*pair.1 as i32)
}

/// The product of two 16-bit values fits in 31 bits.
proof fn lemma_mul_i16_bound(a: int, b: int)
    by (nonlinear_arith)
    requires
        -32768 <= a <= 32767,
        -32768 <= b <= 32767,
    ensures
        -0x4000_0000 < a * b <= 0x4000_0000,
{
}

/// `1 << k` is `2^k`.
proof fn lemma_i32_one_shl(k: u32)
    requires
        k < 31,
    ensures
        (1i32 << k) as int == pow2(k as nat),
    decreases k,
{
    lemma2_to64();
    if k == 0 {
        assert(1i32 << 0u32 == 1i32) by (bit_vector);
    } else {
        let j = (k - 1) as u32;
        lemma_i32_one_shl(j);
        assert((1i32 << k) == 2 * (1i32 << j)) by (bit_vector)
            requires
                k < 31,
                j == k - 1,
        ;
        lemma_pow2_unfold(k as nat);
    }
}

/// Rounds `x / 2^shr` to the nearest integer.
fn round_shr(x: i32, shr: i32) -> (r: i32)
    requires
        1 <= shr <= 30,
        -0x4000_0000 <= x <= 0x4000_0000,
    ensures
        r == spec_round_shr(x as int, shr as int),
        -0x4000_0000 <= r <= 0x4000_0000,
{
    proof {
        lemma2_to64();
        if shr - 1 < 29 {
            lemma_pow2_strictly_increases((shr - 1) as nat, 29);
        }
        lemma_i32_one_shl((shr - 1) as u32);
    }
    let y = x + (1i32 << ((shr - 1) as u32));
    proof {
        lemma_i32_shr(y, shr as u32);
        let p = pow2(shr as nat) as int;
        if shr > 1 {
            lemma_pow2_strictly_increases(1, shr as nat);
        }
        lemma_pow2_unfold(shr as nat);
        lemma_fundamental_div_mod(y as int, p);
        let q = y as int / p;
        assert(-0x4000_0000 <= q <= 0x4000_0000) by (nonlinear_arith)
            requires
                y as int == p * q + y as int % p,
                0 <= y as int % p < p,
                p >= 2,
                -0x4000_0000 <= y <= 0x6000_0000,
        ;
    }
    y >> (shr as u32)
}

/// Half of `x`, rounded down.
pub(crate) fn half(x: i32) -> (r: i32)
    requires
        -0x1_0000 <= x <= 0xffff,
    ensures
        r == x as int / 2,
        -0x8000 <= r <= 0x7fff,
{
    proof {
        lemma_i32_shr(x, 1);
        lemma2_to64();
    }
    x >> 1
}

/// `x << 13` is `x * 2^13` when the product fits.
proof fn lemma_shl13(x: i32)
    requires
        -0x2_0000 <= x <= 0x2_0000,
    ensures
        (x << 13u32) as int == (x as int) * 8192,
{
    assert((x << 13u32) == (x * 8192) as i32) by (bit_vector)
        requires
            -0x2_0000 <= x <= 0x2_0000,
    ;
}

/// The four coefficients of a 4-subband block before rounding:
/// `(a0, a1, b0, b1)`, each scaled by `2^12`.
pub open spec fn spec_dct4_terms(x: Seq<i16>) -> (int, int, int, int) {
    let s03 = (x[0] + x[3]) / 2;
    let d03 = (x[0] - x[3]) / 2;
    let s12 = (x[1] + x[2]) / 2;
    let d12 = (x[1] - x[2]) / 2;
    (
        (s03 - s12) * 5793,
        d03 * 3135 - d12 * 7568,
        -d03 * 7568 - d12 * 3135,
        -(s03 + s12) * 8192,
    )
}

/// The first half of the 4-subband transform of `x`, at `scale`.
pub open spec fn spec_dct4_lo(x: Seq<i16>, scale: int) -> Seq<i16> {
    let t = spec_dct4_terms(x);
    let a0 = spec_round_shr(t.0, 12 + scale);
    let a1 = spec_round_shr(t.1, 12 + scale);
    seq![spec_sat16(a0), spec_sat16(a1), spec_sat16(0), spec_sat16(-a1)]
}

/// The second half of the 4-subband transform of `x`, at `scale`.
pub open spec fn spec_dct4_hi(x: Seq<i16>, scale: int) -> Seq<i16> {
    let t = spec_dct4_terms(x);
    let a0 = spec_round_shr(t.0, 12 + scale);
    let b0 = spec_round_shr(t.2, 12 + scale);
    let b1 = spec_round_shr(t.3, 12 + scale);
    seq![spec_sat16(-a0), spec_sat16(b0), spec_sat16(b1), spec_sat16(b0)]
}

/// The rows `rows` after column `idx` of the first `n` of them was set to `col`.
pub open spec fn spec_set_column(rows: Seq<Seq<i16>>, idx: int, col: Seq<i16>, n: int) -> Seq<Seq<i16>> {
    Seq::new(8, |k: int| if k < n { rows[k].update(idx, col[k]) } else { rows[k] })
}

/// The rows of an 8 by 10 table.
pub open spec fn spec_rows(out: [[i16; 10]; 8]) -> Seq<Seq<i16>> {
    Seq::new(8, |k: int| out[k]@)
}

/// The scale a block is transformed with keeps every rounding shift in range: the
/// coefficients, scaled by `2^12`, are shifted right by `12 + scale` bits, from 1 to 30.
pub open spec fn scale_in_range(scale: int) -> bool {
    -11 <= scale <= 18
}

/// Transforms the four subband samples of a block: the two halves of the result go to
/// column `idx` of `out0` and `out1`.
pub fn dct4(
    data: &[i16],
    scale: i32,
    out0: &mut [[i16; 10]; 8],
    out1: &mut [[i16; 10]; 8],
    idx: usize,
)
    requires
        data.len() >= 4,
        scale_in_range(scale as int),
        idx < 10,
    ensures
        spec_rows(*final(out0)) == spec_set_column(spec_rows(*old(out0)), idx as int, spec_dct4_lo(data@, scale as int), 4),
        spec_rows(*final(out1)) == spec_set_column(spec_rows(*old(out1)), idx as int, spec_dct4_hi(data@, scale as int), 4),
{
    let ghost x = data@;
    let s03 = half(data[0] as i32 + data[3] as i32);
    let d03 = half(data[0] as i32 - data[3] as i32);
    let s12 = half(data[1] as i32 + data[2] as i32);
    let d12 = half(data[1] as i32 - data[2] as i32);
    proof {
        lemma2_to64();
        lemma_shl13((-(s03 + s12)) as i32);
    }

    let a0 = (s03 - s12) * COS8[2];
    let b1 = (-(s03 + s12)) << 13u32;
    let a1 = d03 * COS8[3] - d12 * COS8[1];
    let b0 = -d03 * COS8[1] - d12 * COS8[3];
    let ghost t = spec_dct4_terms(x);
    assert(t == (a0 as int, a1 as int, b0 as int, b1 as int));

    let shr = 12 + scale;
    let a0 = round_shr(a0, shr);
    let b0 = round_shr(b0, shr);
    let a1 = round_shr(a1, shr);
    let b1 = round_shr(b1, shr);

    out0[0][idx] = sat16(a0);
    out0[1][idx] = sat16(a1);
    out0[2][idx] = sat16(0);
    out0[3][idx] = sat16(-a1);

    out1[0][idx] = sat16(-a0);
    out1[1][idx] = sat16(b0);
    out1[2][idx] = sat16(b1);
    out1[3][idx] = sat16(b0);
    proof {
        assert(spec_rows(*out0) =~= spec_set_column(spec_rows(*old(out0)), idx as int, spec_dct4_lo(x, scale as int), 4));
        assert(spec_rows(*out1) =~= spec_set_column(spec_rows(*old(out1)), idx as int, spec_dct4_hi(x, scale as int), 4));
    }
}

/// The eight coefficients of an 8-subband block before rounding:
/// `(a0, a1, a2, a3, b0, b1, b2, b3)`, each scaled by `2^12`.
pub open spec fn spec_dct8_terms(x: Seq<i16>) -> (int, int, int, int, int, int, int, int) {
    let s07 = (x[0] + x[7]) / 2;
    let d07 = (x[0] - x[7]) / 2;
    let s16 = (x[1] + x[6]) / 2;
    let d16 = (x[1] - x[6]) / 2;
    let s25 = (x[2] + x[5]) / 2;
    let d25 = (x[2] - x[5]) / 2;
    let s34 = (x[3] + x[4]) / 2;
    let d34 = (x[3] - x[4]) / 2;
    (
        ((s07 + s34) - (s25 + s16)) * 5793,
        d07 * 4551 - d16 * 8035 + d25 * 1598 + d34 * 6811,
        (s07 - s34) * 3135 + (s25 - s16) * 7568,
        d07 * 1598 - d16 * 4551 + d25 * 6811 - d34 * 8035,
        -d07 * 6811 + d16 * 1598 + d25 * 8035 + d34 * 4551,
        (s34 - s07) * 7568 + (s25 - s16) * 3135,
        -d07 * 8035 - d16 * 6811 - d25 * 4551 - d34 * 1598,
        (-(s07 + s34) - (s25 + s16)) * 8192,
    )
}

/// The first half of the 8-subband transform of `x`, at `scale`.
pub open spec fn spec_dct8_lo(x: Seq<i16>, scale: int) -> Seq<i16> {
    let t = spec_dct8_terms(x);
    let shr = 12 + scale;
    let a0 = spec_round_shr(t.0, shr);
    let a1 = spec_round_shr(t.1, shr);
    let a2 = spec_round_shr(t.2, shr);
    let a3 = spec_round_shr(t.3, shr);
    seq![
        spec_sat16(a0),
        spec_sat16(a1),
        spec_sat16(a2),
        spec_sat16(a3),
        spec_sat16(0),
        spec_sat16(-a3),
        spec_sat16(-a2),
        spec_sat16(-a1),
    ]
}

/// The second half of the 8-subband transform of `x`, at `scale`.
pub open spec fn spec_dct8_hi(x: Seq<i16>, scale: int) -> Seq<i16> {
    let t = spec_dct8_terms(x);
    let shr = 12 + scale;
    let a0 = spec_round_shr(t.0, shr);
    let b0 = spec_round_shr(t.4, shr);
    let b1 = spec_round_shr(t.5, shr);
    let b2 = spec_round_shr(t.6, shr);
    let b3 = spec_round_shr(t.7, shr);
    seq![
        spec_sat16(-a0),
        spec_sat16(b0),
        spec_sat16(b1),
        spec_sat16(b2),
        spec_sat16(b3),
        spec_sat16(b2),
        spec_sat16(b1),
        spec_sat16(b0),
    ]
}

/// The coefficients of an 8-subband block before rounding.
fn dct8_terms(data: &[i16]) -> (r: (i32, i32, i32, i32, i32, i32, i32, i32))
    requires
        data.len() >= 8,
    ensures
        spec_dct8_terms(data@) == (
            r.0 as int,
            r.1 as int,
            r.2 as int,
            r.3 as int,
            r.4 as int,
            r.5 as int,
            r.6 as int,
            r.7 as int,
        ),
        -0x4000_0000 <= r.0 <= 0x4000_0000,
        -0x4000_0000 <= r.1 <= 0x4000_0000,
        -0x4000_0000 <= r.2 <= 0x4000_0000,
        -0x4000_0000 <= r.3 <= 0x4000_0000,
        -0x4000_0000 <= r.4 <= 0x4000_0000,
        -0x4000_0000 <= r.5 <= 0x4000_0000,
        -0x4000_0000 <= r.6 <= 0x4000_0000,
        -0x4000_0000 <= r.7 <= 0x4000_0000,
{
    let ghost x = data@;
    let s07 = half(data[0] as i32 + data[7] as i32);
    let d07 = half(data[0] as i32 - data[7] as i32);
    let s16 = half(data[1] as i32 + data[6] as i32);
    let d16 = half(data[1] as i32 - data[6] as i32);
    let s25 = half(data[2] as i32 + data[5] as i32);
    let d25 = half(data[2] as i32 - data[5] as i32);
    let s34 = half(data[3] as i32 + data[4] as i32);
    let d34 = half(data[3] as i32 - data[4] as i32);
    proof {
        lemma_shl13((-(s07 + s34) - (s25 + s16)) as i32);
    }
    let a0 = ((s07 + s34) - (s25 + s16)) * 5793;
    let b3 = (-(s07 + s34) - (s25 + s16)) << 13u32;
    let a2 = (s07 - s34) * 3135 + (s25 - s16) * 7568;
    let b1 = (s34 - s07) * 7568 + (s25 - s16) * 3135;
    let a1 = d07 * 4551 - d16 * 8035 + d25 * 1598 + d34 * 6811;
    let b2 = -d07 * 8035 - d16 * 6811 - d25 * 4551 - d34 * 1598;
    let a3 = d07 * 1598 - d16 * 4551 + d25 * 6811 - d34 * 8035;
    let b0 = -d07 * 6811 + d16 * 1598 + d25 * 8035 + d34 * 4551;
    let ghost t = spec_dct8_terms(x);
    assert(t == (
        a0 as int,
        a1 as int,
        a2 as int,
        a3 as int,
        b0 as int,
        b1 as int,
        b2 as int,
        b3 as int,
    ));

    (a0, a1, a2, a3, b0, b1, b2, b3)
}

/// Transforms the eight subband samples of a block: the two halves of the result go to
/// column `idx` of `out0` and `out1`.
pub fn dct8(
    data: &[i16],
    scale: i32,
    out0: &mut [[i16; 10]; 8],
    out1: &mut [[i16; 10]; 8],
    idx: usize,
)
    requires
        data.len() >= 8,
        scale_in_range(scale as int),
        idx < 10,
    ensures
        spec_rows(*final(out0)) == spec_set_column(spec_rows(*old(out0)), idx as int, spec_dct8_lo(data@, scale as int), 8),
        spec_rows(*final(out1)) == spec_set_column(spec_rows(*old(out1)), idx as int, spec_dct8_hi(data@, scale as int), 8),
{
    let ghost x = data@;
    let (a0, a1, a2, a3, b0, b1, b2, b3) = dct8_terms(data);

    let shr = 12 + scale;
    let a0 = round_shr(a0, shr);
    let a1 = round_shr(a1, shr);
    let a2 = round_shr(a2, shr);
    let a3 = round_shr(a3, shr);
    let b0 = round_shr(b0, shr);
    let b1 = round_shr(b1, shr);
    let b2 = round_shr(b2, shr);
    let b3 = round_shr(b3, shr);

    out0[0][idx] = sat16(a0);
    out0[1][idx] = sat16(a1);
    out0[2][idx] = sat16(a2);
    out0[3][idx] = sat16(a3);
    out0[4][idx] = sat16(0);
    out0[5][idx] = sat16(-a3);
    out0[6][idx] = sat16(-a2);
    out0[7][idx] = sat16(-a1);

    out1[0][idx] = sat16(-a0);
    out1[1][idx] = sat16(b0);
    out1[2][idx] = sat16(b1);
    out1[3][idx] = sat16(b2);
    out1[4][idx] = sat16(b3);
    out1[5][idx] = sat16(b2);
    out1[6][idx] = sat16(b1);
    out1[7][idx] = sat16(b0);
    proof {
        assert(spec_rows(*out0) =~= spec_set_column(spec_rows(*old(out0)), idx as int, spec_dct8_lo(x, scale as int), 8));
        assert(spec_rows(*out1) =~= spec_set_column(spec_rows(*old(out1)), idx as int, spec_dct8_hi(x, scale as int), 8));
    }
}

/// The two elements of `v`, in reverse order when `swap` is set.
pub fn destructure2<T>(v: &mut [T; 2], swap: bool) -> (r: (&mut T, &mut T))
    ensures
        *r.0 == old(v)[if swap { 1int } else { 0int }],
        *r.1 == old(v)[if swap { 0int } else { 1int }],
        final(v)@ == if swap {
            seq![*final(r.1), *final(r.0)]
        } else {
            seq![*final(r.0), *final(r.1)]
        },
{
    let (x, y) = v.split_at_mut(1);
    let a = &mut x[0];
    let b = &mut y[0];
    if swap {
        (b, a)
    } else {
        (a, b)
    }
}

/* --- Windowing coefficients (fixed 2.13) ---
 *
 * The table is duplicated and transposed to fit the circular
 * buffer of reconstructed samples. */

/// Window of the 4-subband synthesis, one row per subband.
pub const WINDOW4: [[i16; 20]; 4] = [
    [
        0, -126, -358, -848, -4443, -9644, 4443, -848, 358, -126,
        0, -126, -358, -848, -4443, -9644, 4443, -848, 358, -126,
    ],
    [
        -18, -128, -670, -201, -6389, -9235, 2544, -1055, 100, -90,
        -18, -128, -670, -201, -6389, -9235, 2544, -1055, 100, -90,
    ],
    [
        -49, -61, -946, 944, -8082, -8082, 944, -946, -61, -49,
        -49, -61, -946, 944, -8082, -8082, 944, -946, -61, -49,
    ],
    [
        -90, 100, -1055, 2544, -9235, -6389, -201, -670, -128, -18,
        -90, 100, -1055, 2544, -9235, -6389, -201, -670, -128, -18,
    ],
];

/// Window of the 8-subband synthesis, one row per subband.
pub const WINDOW8: [[i16; 20]; 8] = [
    [
        0, -132, -371, -848, -4456, -9631, 4456, -848, 371, -132,
        0, -132, -371, -848, -4456, -9631, 4456, -848, 371, -132,
    ],
    [
        -10, -138, -526, -580, -5438, -9528, 3486, -1004, 229, -117,
        -10, -138, -526, -580, -5438, -9528, 3486, -1004, 229, -117,
    ],
    [
        -22, -131, -685, -192, -6395, -9224, 2561, -1063, 108, -97,
        -22, -131, -685, -192, -6395, -9224, 2561, -1063, 108, -97,
    ],
    [
        -36, -106, -835, 322, -7287, -8734, 1711, -1042, 12, -75,
        -36, -106, -835, 322, -7287, -8734, 1711, -1042, 12, -75,
    ],
    [
        -54, -59, -960, 959, -8078, -8078, 959, -960, -59, -54,
        -54, -59, -960, 959, -8078, -8078, 959, -960, -59, -54,
    ],
    [
        -75, 12, -1042, 1711, -8734, -7287, 322, -835, -106, -36,
        -75, 12, -1042, 1711, -8734, -7287, 322, -835, -106, -36,
    ],
    [
        -97, 108, -1063, 2561, -9224, -6395, -192, -685, -131, -22,
        -97, 108, -1063, 2561, -9224, -6395, -192, -685, -131, -22,
    ],
    [
        -117, 229, -1004, 3486, -9528, -5438, -580, -526, -138, -10,
        -117, 229, -1004, 3486, -9528, -5438, -580, -526, -138, -10,
    ],
];

/// `sum(w[off + j] * u[j])` over the first `n` values of `u`.
pub open spec fn spec_window_sum(w: Seq<i16>, off: int, u: Seq<i16>, n: nat) -> int
    decreases n,
{
    if n == 0 {
        0
    } else {
        spec_window_sum(w, off, u, (n - 1) as nat) + w[off + n - 1] * u[n - 1]
    }
}

/// One output sample: the ten values of `u` weighted by the window row `w` from `off`,
/// rounded from fixed point 2.13 and saturated.
pub open spec fn spec_window_out(w: Seq<i16>, off: int, u: Seq<i16>) -> i16 {
    spec_sat16(spec_round_shr(spec_window_sum(w, off, u, 10), 13))
}

/// Row `i` of the window of the `n`-subband synthesis.
pub open spec fn spec_window_row(n: int, i: int) -> Seq<i16> {
    if n == 4 {
        WINDOW4[i]@
    } else {
        WINDOW8[i]@
    }
}

/// The weighted sum of one row, on 64 bits.
fn window_sum(w: &[i16; 20], off: usize, u: &[i16; 10]) -> (r: i64)
    requires
        off <= 10,
    ensures
        r == spec_window_sum(w@, off as int, u@, 10),
        -0x4000_0000 * 10 <= r <= 0x4000_0000 * 10,
{
    let mut s: i64 = 0;
    let mut j: usize = 0;
    while j < 10
        invariant
            j <= 10,
            off <= 10,
            s == spec_window_sum(w@, off as int, u@, j as nat),
            -0x4000_0000 * j <= s <= 0x4000_0000 * j,
        decreases 10 - j,
    {
        let p = widened_mul((&w[off + j], &u[j]));
        s = s + p as i64;
        j += 1;
    }
    s
}

/// Windows the rows of `data` with those of `window` from column `offset`, and writes
/// the results to samples `start..start + N` of `out`.
pub fn apply_window<const N: usize>(
    data: &[[i16; 10]; 8],
    window: &[[i16; 20]; N],
    offset: usize,
    out: &mut BufferView,
    start: usize,
)
    requires
        N <= 8,
        offset <= 10,
        old(out).wf(),
        start + N <= old(out).spec_len(),
    ensures
        final(out).pitch == old(out).pitch,
        final(out).offset == old(out).offset,
        final(out).buf@.len() == old(out).buf@.len(),
        final(final(out).buf)@ == final(old(out).buf)@,
        forall|i: int|
            0 <= i < N ==> #[trigger] final(out).buf@[old(out).offset + (start + i) * old(out).pitch]
                == spec_window_out(window[i]@, offset as int, data[i]@),
        forall|j: int|
            0 <= j < old(out).buf@.len() && !old(out).holds(j, start as int, start + N)
                ==> #[trigger] final(out).buf@[j] == old(out).buf@[j],
{
    let ghost out0 = *out;
    let ghost pitch = out.pitch as int;
    let ghost voff = out.offset as int;
    let blen = out.buf.len();
    proof {
        assert(out0.spec_len() <= blen) by (nonlinear_arith)
            requires
                out0.spec_len() == blen as int / pitch,
                pitch >= 1,
        ;
    }
    let mut i: usize = 0;
    while i < N
        invariant
            i <= N <= 8,
            offset <= 10,
            out.wf(),
            out.pitch == pitch,
            out.offset == voff,
            final(out.buf)@ == final(out0.buf)@,
            out0.pitch == pitch,
            out0.offset == voff,
            out0.wf(),
            out.buf@.len() == out0.buf@.len(),
            start + N <= out0.spec_len(),
            out0.spec_len() <= blen,
            forall|k: int|
                0 <= k < i ==> #[trigger] out.buf@[voff + (start + k) * pitch] == spec_window_out(
                    window[k]@,
                    offset as int,
                    data[k]@,
                ),
            forall|j: int|
                0 <= j < out0.buf@.len() && !out0.holds(j, start as int, start + i)
                    ==> #[trigger] out.buf@[j] == out0.buf@[j],
        decreases N - i,
    {
        let s = window_sum(&window[i], offset, &data[i]);
        let ghost before = out.buf@;
        proof {
            lemma2_to64();
        }
        // Round from fixed point 2.13: add half of 2^13 and shift.
        let t = s + 4096;
        proof {
            lemma_i64_shr(t, 13);
            lemma2_to64();
            assert(-0x20_0000 <= t / 8192 <= 0x20_0000) by (nonlinear_arith)
                requires
                    -0x4000_0000 * 10 <= t <= 0x4000_0000 * 10 + 4096,
            ;
        }
        let v = sat16((t >> 13u64) as i32);
        assert(out.spec_len() == out0.spec_len());
        out.set(start + i, v);
        proof {
            let pi = voff + (start + i) * pitch;
            lemma_view_pos(voff, pitch, (start + i) as int);
            lemma_view_index(voff, pitch, out0.buf@.len() as int, (start + i) as int);
            assert(out.buf@ == before.update(pi, v));
            assert(v == spec_window_out(window[i as int]@, offset as int, data[i as int]@));
            assert forall|k: int| 0 <= k < i + 1 implies #[trigger] out.buf@[voff + (start + k) * pitch]
                == spec_window_out(window[k]@, offset as int, data[k]@) by {
                lemma_view_pos(voff, pitch, start + k);
                lemma_view_index(voff, pitch, out0.buf@.len() as int, start + k);
                if k < i {
                    assert(before[voff + (start + k) * pitch] == spec_window_out(
                        window[k]@,
                        offset as int,
                        data[k]@,
                    ));
                }
            }
            assert forall|j: int|
                0 <= j < out0.buf@.len() && !out0.holds(j, start as int, start + i + 1)
                    implies #[trigger] out.buf@[j] == out0.buf@[j] by {
                assert(before[j] == out0.buf@[j]);
            }
        }
        i += 1;
    }
}

/// One step of an arithmetic right shift on 64 bits.
proof fn lemma_i64_shr_step(x: i64, k: u64, k1: u64)
    by (bit_vector)
    requires
        k < 63,
        k1 == k + 1,
    ensures
        x >> k1 == (x >> k) >> 1u64,
{
}

/// An arithmetic right shift by one halves a 64-bit value, rounding down.
proof fn lemma_i64_half(y: i64)
    by (bit_vector)
    ensures
        (y >> 1u64) * 2 + (y & 1i64) == y,
        0 <= (y & 1i64) <= 1,
{
}

/// An arithmetic right shift of a 64-bit value divides by a power of two, rounding down.
pub proof fn lemma_i64_shr(x: i64, k: u64)
    requires
        k < 63,
    ensures
        (x >> k) as int == (x as int) / (pow2(k as nat) as int),
    decreases k,
{
    lemma2_to64();
    if k == 0 {
        assert(x >> 0u64 == x) by (bit_vector);
    } else {
        let j = (k - 1) as u64;
        lemma_i64_shr(x, j);
        lemma_i64_shr_step(x, j, k);
        let y = x >> j;
        lemma_i64_half(y);
        lemma_pow2_pos(j as nat);
        lemma_pow2_unfold(k as nat);
        let p = pow2(j as nat) as int;
        let q = (x as int) / p;
        let r = (x as int) % p;
        lemma_fundamental_div_mod(x as int, p);
        let b = (y & 1i64) as int;
        let z = (y >> 1u64) as int;
        assert(x as int == z * (2 * p) + (b * p + r)) by (nonlinear_arith)
            requires
                x as int == p * q + r,
                q == y as int,
                z * 2 + b == y as int,
        ;
        assert(0 <= b * p + r < 2 * p) by (nonlinear_arith)
            requires
                0 <= b <= 1,
                0 <= r < p,
        ;
        lemma_fundamental_div_mod_converse(x as int, 2 * p, z, b * p + r);
        assert(pow2(k as nat) as int == 2 * p);
        assert((x >> k) as int == z);
    }
}

/// Sample `i` of a view lies in its buffer.
proof fn lemma_view_index(off: int, pitch: int, len: int, i: int)
    requires
        0 <= off < pitch,
        0 <= i < len / pitch,
    ensures
        0 <= off + i * pitch < len,
{
    assert(0 <= off + i * pitch < len) by (nonlinear_arith)
        requires
            0 <= off < pitch,
            0 <= i < len / pitch,
    {
        assert((i + 1) * pitch <= (len / pitch) * pitch);
        vstd::arithmetic::div_mod::lemma_fundamental_div_mod(len, pitch);
    }
}

/// Position `off + i * pitch` of a buffer holds sample `i` of a view.
proof fn lemma_view_pos(off: int, pitch: int, i: int)
    requires
        0 <= off < pitch,
        0 <= i,
    ensures
        (off + i * pitch) % pitch == off,
        (off + i * pitch) / pitch == i,
{
    vstd::arithmetic::div_mod::lemma_fundamental_div_mod_converse(off + i * pitch, pitch, i, off);
}

/// The state of the synthesis filter of one channel: a circular history of ten
/// transformed blocks in two halves, and the position in it.
pub struct DecoderState {
    pub index: usize,
    pub v: [[[i16; 10]; 8]; 2],
}

/// The history of a synthesis state as rows of values.
pub open spec fn spec_history(v: [[[i16; 10]; 8]; 2]) -> Seq<Seq<Seq<i16>>> {
    Seq::new(2, |c: int| spec_rows(v[c]))
}

/// The column of the history that the block at position `idx` is transformed into.
pub open spec fn spec_dct_index(idx: int) -> int {
    if idx != 0 {
        10 - idx
    } else {
        0
    }
}

/// The position in the history after the one at `idx`.
pub open spec fn spec_next_index(idx: int) -> int {
    if idx < 9 {
        idx + 1
    } else {
        0
    }
}

/// The first half of the transform of a block of `n` subband samples.
pub open spec fn spec_dct_lo(x: Seq<i16>, scale: int, n: int) -> Seq<i16> {
    if n == 4 {
        spec_dct4_lo(x, scale)
    } else {
        spec_dct8_lo(x, scale)
    }
}

/// The second half of the transform of a block of `n` subband samples.
pub open spec fn spec_dct_hi(x: Seq<i16>, scale: int, n: int) -> Seq<i16> {
    if n == 4 {
        spec_dct4_hi(x, scale)
    } else {
        spec_dct8_hi(x, scale)
    }
}

/// The history after the block `x` was transformed at position `idx`: the half of the
/// parity of its column goes to that column of `v[parity]`, the other half to the other.
pub open spec fn spec_step(
    v: Seq<Seq<Seq<i16>>>,
    idx: int,
    x: Seq<i16>,
    scale: int,
    n: int,
) -> Seq<Seq<Seq<i16>>> {
    let j = spec_dct_index(idx);
    let o = j % 2;
    Seq::new(
        2,
        |c: int|
            if c == o {
                spec_set_column(v[c], j, spec_dct_lo(x, scale, n), n)
            } else {
                spec_set_column(v[c], j, spec_dct_hi(x, scale, n), n)
            },
    )
}

/// Output sample `i` of a block synthesized at position `idx`, from the history `v`
/// that holds the block.
pub open spec fn spec_block_out(v: Seq<Seq<Seq<i16>>>, idx: int, n: int, i: int) -> i16 {
    spec_window_out(spec_window_row(n, i), idx, v[spec_dct_index(idx) % 2][i])
}

impl DecoderState {
    /// A state with an empty history.
    pub fn new() -> (r: Self)
        ensures
            r.index == 0,
            forall|c: int, k: int, j: int|
                0 <= c < 2 && 0 <= k < 8 && 0 <= j < 10 ==> #[trigger] r.v[c][k][j] == 0,
    {
        DecoderState { index: 0, v: [[[0i16; 10]; 8]; 2] }
    }
}

/// Synthesizes one block of `subbands` samples into samples `start..start + subbands`
/// of `out`.
pub fn synthesize_block(
    state: &mut DecoderState,
    data: &[i16],
    subbands: usize,
    scale: i32,
    out: &mut BufferView,
    start: usize,
)
    requires
        old(state).index < 10,
        subbands == 4 || subbands == 8,
        data.len() >= subbands,
        scale_in_range(scale as int),
        old(out).wf(),
        start + subbands <= old(out).spec_len(),
    ensures
        final(state).index == spec_next_index(old(state).index as int),
        spec_history(final(state).v) == spec_step(
            spec_history(old(state).v),
            old(state).index as int,
            data@,
            scale as int,
            subbands as int,
        ),
        final(out).pitch == old(out).pitch,
        final(out).offset == old(out).offset,
        final(out).buf@.len() == old(out).buf@.len(),
        final(final(out).buf)@ == final(old(out).buf)@,
        forall|i: int|
            0 <= i < subbands ==> #[trigger] final(out).buf@[old(out).offset + (start + i) * old(
                out,
            ).pitch] == spec_block_out(spec_history(final(state).v), old(state).index as int, subbands as int, i),
        forall|j: int|
            0 <= j < old(out).buf@.len() && !old(out).holds(j, start as int, start + subbands)
                ==> #[trigger] final(out).buf@[j] == old(out).buf@[j],
{
    let ghost h0 = spec_history(state.v);
    /* --- IDCT and windowing --- */
    let dct_idx = if state.index != 0 {
        10 - state.index
    } else {
        0
    };
    let odd = dct_idx % 2 == 1;
    let (a, b) = destructure2(&mut state.v, odd);
    if subbands == 4 {
        dct4(data, scale, a, b, dct_idx);
        apply_window(a, &WINDOW4, state.index, out, start);
    } else {
        dct8(data, scale, a, b, dct_idx);
        apply_window(a, &WINDOW8, state.index, out, start);
    }
    proof {
        assert(spec_history(state.v) =~= spec_step(h0, state.index as int, data@, scale as int, subbands as int));
    }
    state.index = if state.index < 9 {
        state.index + 1
    } else {
        0
    };
}

/// Position and history after `b` blocks of `n` subband samples of `data` were
/// synthesized from position `idx` and history `h`.
pub open spec fn spec_synth(
    h: Seq<Seq<Seq<i16>>>,
    idx: int,
    data: Seq<i16>,
    scale: int,
    n: int,
    b: nat,
) -> (int, Seq<Seq<Seq<i16>>>)
    decreases b,
{
    if b == 0 {
        (idx, h)
    } else {
        let p = spec_synth(h, idx, data, scale, n, (b - 1) as nat);
        (
            spec_next_index(p.0),
            spec_step(p.1, p.0, data.subrange((b - 1) * n, b * n), scale, n),
        )
    }
}

/// Output sample `k` of the synthesis of the blocks of `data`: sample `k % n` of
/// block `k / n`.
pub open spec fn spec_synth_out(
    h: Seq<Seq<Seq<i16>>>,
    idx: int,
    data: Seq<i16>,
    scale: int,
    n: int,
    k: int,
) -> i16 {
    let before = spec_synth(h, idx, data, scale, n, (k / n) as nat);
    let after = spec_synth(h, idx, data, scale, n, (k / n + 1) as nat);
    spec_block_out(after.1, before.0, n, k % n)
}

/// Number of blocks synthesized: `blocks`, or as many whole blocks as `data` holds.
pub open spec fn spec_synth_blocks(blocks: int, n: int, len: int) -> int {
    if blocks <= len / n {
        blocks
    } else {
        len / n
    }
}

/// Sample `k % n` of block `k / n` of a synthesis.
proof fn lemma_synth_out_at(
    h: Seq<Seq<Seq<i16>>>,
    idx: int,
    data: Seq<i16>,
    scale: int,
    n: int,
    b: int,
    i: int,
)
    requires
        n > 0,
        0 <= b,
        0 <= i < n,
    ensures
        spec_synth_out(h, idx, data, scale, n, b * n + i) == spec_block_out(
            spec_synth(h, idx, data, scale, n, (b + 1) as nat).1,
            spec_synth(h, idx, data, scale, n, b as nat).0,
            n,
            i,
        ),
{
    vstd::arithmetic::div_mod::lemma_fundamental_div_mod_converse(b * n + i, n, b, i);
}

/// After block `b` was written to the buffer `after`, the buffer holds the first `b + 1`
/// blocks of the synthesis and what else it held before the synthesis.
proof fn lemma_synth_block_written(
    before: Seq<i16>,
    after: Seq<i16>,
    orig: Seq<i16>,
    voff: int,
    pitch: int,
    h: Seq<Seq<Seq<i16>>>,
    idx: int,
    data: Seq<i16>,
    scale: int,
    n: int,
    b: int,
)
    requires
        0 <= voff < pitch,
        n > 0,
        0 <= b,
        (b + 1) * n <= orig.len() as int / pitch,
        before.len() == orig.len(),
        after.len() == orig.len(),
        forall|k: int|
            0 <= k < b * n ==> #[trigger] before[voff + k * pitch] == spec_synth_out(
                h,
                idx,
                data,
                scale,
                n,
                k,
            ),
        forall|j: int|
            0 <= j < orig.len() && !view_holds(j, pitch, voff, 0, b * n) ==> #[trigger] before[j]
                == orig[j],
        forall|i: int|
            0 <= i < n ==> #[trigger] after[voff + (b * n + i) * pitch] == spec_block_out(
                spec_synth(h, idx, data, scale, n, (b + 1) as nat).1,
                spec_synth(h, idx, data, scale, n, b as nat).0,
                n,
                i,
            ),
        forall|j: int|
            0 <= j < orig.len() && !view_holds(j, pitch, voff, b * n, b * n + n) ==> #[trigger] after[j]
                == before[j],
    ensures
        forall|k: int|
            0 <= k < (b + 1) * n ==> #[trigger] after[voff + k * pitch] == spec_synth_out(
                h,
                idx,
                data,
                scale,
                n,
                k,
            ),
        forall|j: int|
            0 <= j < orig.len() && !view_holds(j, pitch, voff, 0, (b + 1) * n) ==> #[trigger] after[j]
                == orig[j],
{
    assert((b + 1) * n == b * n + n) by (nonlinear_arith);
    assert forall|k: int| 0 <= k < (b + 1) * n implies #[trigger] after[voff + k * pitch]
        == spec_synth_out(h, idx, data, scale, n, k) by {
        lemma_view_pos(voff, pitch, k);
        lemma_view_index(voff, pitch, orig.len() as int, k);
        if k < b * n {
            assert(before[voff + k * pitch] == spec_synth_out(h, idx, data, scale, n, k));
        } else {
            let i = k - b * n;
            lemma_synth_out_at(h, idx, data, scale, n, b, i);
            assert(after[voff + (b * n + i) * pitch] == spec_block_out(
                spec_synth(h, idx, data, scale, n, (b + 1) as nat).1,
                spec_synth(h, idx, data, scale, n, b as nat).0,
                n,
                i,
            ));
        }
    }
    assert forall|j: int|
        0 <= j < orig.len() && !view_holds(j, pitch, voff, 0, (b + 1) * n) implies #[trigger] after[j]
        == orig[j] by {
        assert(after[j] == before[j]);
    }
}

/// Synthesizes `blocks` blocks of `subbands` subband samples from `data`, at most as
/// many as `data` holds whole, into the samples of `out` from the first on.
pub fn synthesize(
    state: &mut DecoderState,
    blocks: usize,
    subbands: usize,
    data: &[i16],
    scale: i32,
    out: &mut BufferView,
)
    requires
        old(state).index < 10,
        subbands == 4 || subbands == 8,
        scale_in_range(scale as int),
        old(out).wf(),
        spec_synth_blocks(blocks as int, subbands as int, data@.len() as int) * subbands <= old(
            out,
        ).spec_len(),
    ensures
        final(state).index < 10,
        (final(state).index as int, spec_history(final(state).v)) == spec_synth(
            spec_history(old(state).v),
            old(state).index as int,
            data@,
            scale as int,
            subbands as int,
            spec_synth_blocks(blocks as int, subbands as int, data@.len() as int) as nat,
        ),
        final(out).pitch == old(out).pitch,
        final(out).offset == old(out).offset,
        final(out).buf@.len() == old(out).buf@.len(),
        final(final(out).buf)@ == final(old(out).buf)@,
        forall|k: int|
            0 <= k < spec_synth_blocks(blocks as int, subbands as int, data@.len() as int) * subbands
                ==> #[trigger] final(out).buf@[old(out).offset + k * old(out).pitch] == spec_synth_out(
                spec_history(old(state).v),
                old(state).index as int,
                data@,
                scale as int,
                subbands as int,
                k,
            ),
        forall|j: int|
            0 <= j < old(out).buf@.len() && !old(out).holds(
                j,
                0,
                spec_synth_blocks(blocks as int, subbands as int, data@.len() as int) * subbands,
            ) ==> #[trigger] final(out).buf@[j] == old(out).buf@[j],
{
    let ghost h0 = spec_history(state.v);
    let ghost idx0 = state.index as int;
    let ghost out0 = *out;
    let ghost n = subbands as int;
    let ghost pitch = out.pitch as int;
    let ghost voff = out.offset as int;
    let nblocks = if blocks <= data.len() / subbands {
        blocks
    } else {
        data.len() / subbands
    };
    let ghost nb = nblocks as int;
    let dlen = data.len();
    proof {
        assert(nb * n <= data@.len()) by (nonlinear_arith)
            requires
                nb <= data@.len() as int / n,
                n > 0,
        {
            vstd::arithmetic::div_mod::lemma_fundamental_div_mod(data@.len() as int, n);
        }
    }
    let mut block: usize = 0;
    while block < nblocks
        invariant
            block <= nblocks,
            nb == nblocks,
            nb == spec_synth_blocks(blocks as int, n, data@.len() as int),
            n == subbands,
            subbands == 4 || subbands == 8,
            nb * n <= data@.len(),
            data@.len() == dlen,
            nb * n <= out0.spec_len(),
            scale_in_range(scale as int),
            state.index < 10,
            (state.index as int, spec_history(state.v)) == spec_synth(
                h0,
                idx0,
                data@,
                scale as int,
                n,
                block as nat,
            ),
            out.wf(),
            out0.wf(),
            out.pitch == pitch,
            out.offset == voff,
            final(out.buf)@ == final(out0.buf)@,
            out0.pitch == pitch,
            out0.offset == voff,
            out.buf@.len() == out0.buf@.len(),
            forall|k: int|
                0 <= k < block * n ==> #[trigger] out.buf@[voff + k * pitch] == spec_synth_out(
                    h0,
                    idx0,
                    data@,
                    scale as int,
                    n,
                    k,
                ),
            forall|j: int|
                0 <= j < out0.buf@.len() && !out0.holds(j, 0, block * n) ==> #[trigger] out.buf@[j]
                    == out0.buf@[j],
        decreases nblocks - block,
    {
        proof {
            assert(block * n + n <= nb * n) by (nonlinear_arith)
                requires
                    block < nb,
                    n > 0,
            ;
        }
        let lo = block * subbands;
        let ghost before = out.buf@;
        let ghost st = spec_synth(h0, idx0, data@, scale as int, n, block as nat);
        synthesize_block(state, &data[lo..lo + subbands], subbands, scale, out, lo);
        proof {
            assert(data@.subrange(lo as int, lo + n) == data@.subrange(block * n, (block + 1) * n));
            lemma_synth_block_written(
                before,
                out.buf@,
                out0.buf@,
                voff,
                pitch,
                h0,
                idx0,
                data@,
                scale as int,
                n,
                block as int,
            );
        }
        block += 1;
    }
}

} // verus!
