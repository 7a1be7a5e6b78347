//! The analysis filter bank of the encoder, which turns blocks of PCM samples into
//! subband samples.
use vstd::arithmetic::div_mod::*;
use vstd::arithmetic::power2::*;
use vstd::prelude::*;

use crate::decoder::synthesize::{
    lemma_i64_shr, spec_next_index, spec_round_shr, spec_sat16, spec_window_sum,
};

verus! {

/* --- Analysis windows (fixed point 2.13) ---
 *
 * The first half filters the samples of the current block, the second half those that
 * are carried to the next block. Each row of five coefficients is duplicated, so that
 * five consecutive values can be read from any of its first five columns. */

/// Window of the 4-subband analysis.
pub const AWINDOW4: [[[i16; 10]; 4]; 2] = [
    [
        [0, 358, 4443, -4443, -358, 0, 358, 4443, -4443, -358],
        [49, 946, 8082, -944, 61, 49, 946, 8082, -944, 61],
        [18, 670, 6389, -2544, -100, 18, 670, 6389, -2544, -100],
        [90, 1055, 9235, 201, 128, 90, 1055, 9235, 201, 128],
    ],
    [
        [126, 848, 9644, 848, 126, 126, 848, 9644, 848, 126],
        [61, -944, 8082, 946, 49, 61, -944, 8082, 946, 49],
        [128, 201, 9235, 1055, 90, 128, 201, 9235, 1055, 90],
        [-100, -2544, 6389, 670, 18, -100, -2544, 6389, 670, 18],
    ],
];

/// Window of the 8-subband analysis.
pub const AWINDOW8: [[[i16; 10]; 8]; 2] = [
    [
        [0, 185, 2228, -2228, -185, 0, 185, 2228, -2228, -185],
        [27, 480, 4039, -480, 30, 27, 480, 4039, -480, 30],
        [5, 263, 2719, -1743, -115, 5, 263, 2719, -1743, -115],
        [58, 502, 4764, 290, 69, 58, 502, 4764, 290, 69],
        [11, 343, 3197, -1280, -54, 11, 343, 3197, -1280, -54],
        [48, 532, 4612, 96, 65, 48, 532, 4612, 96, 65],
        [18, 418, 3644, -856, -6, 18, 418, 3644, -856, -6],
        [37, 521, 4367, -161, 53, 37, 521, 4367, -161, 53],
    ],
    [
        [66, 424, 4815, 424, 66, 66, 424, 4815, 424, 66],
        [30, -480, 4039, 480, 27, 30, -480, 4039, 480, 27],
        [69, 290, 4764, 502, 58, 69, 290, 4764, 502, 58],
        [-115, -1743, 2719, 263, 5, -115, -1743, 2719, 263, 5],
        [65, 96, 4612, 532, 48, 65, 96, 4612, 532, 48],
        [-54, -1280, 3197, 343, 11, -54, -1280, 3197, 343, 11],
        [53, -161, 4367, 521, 37, 53, -161, 4367, 521, 37],
        [-6, -856, 3644, 418, 18, -6, -856, 3644, 418, 18],
    ],
];

/// Matrix of the partial transform of the 4-subband analysis, in fixed point 0.13.
pub const ACOS4: [[i32; 4]; 4] = [
    [5793, 7568, 3135, 8192],
    [-5793, 3135, -7568, 8192],
    [-5793, -3135, 7568, 8192],
    [5793, -7568, -3135, 8192],
];

/// Matrix of the partial transform of the 8-subband analysis, in fixed point 0.13.
pub const ACOS8: [[i32; 8]; 8] = [
    [5793, 6811, 7568, 8035, 4551, 3135, 1598, 8192],
    [-5793, -1598, 3135, 6811, -8035, -7568, -4551, 8192],
    [-5793, -8035, -3135, 4551, 1598, 7568, 6811, 8192],
    [5793, -4551, -7568, 1598, 6811, -3135, -8035, 8192],
    [5793, 4551, -7568, -1598, -6811, -3135, 8035, 8192],
    [-5793, 8035, -3135, -4551, -1598, 7568, -6811, 8192],
    [-5793, 1598, 3135, -6811, 8035, -7568, 4551, 8192],
    [5793, -6811, 7568, -8035, -4551, 3135, -1598, 8192],
];

/// For each row of the 4-subband history, the sample of the block it takes.
pub const LOAD4: [usize; 4] = [3, 1, 2, 0];

/// For each row of the 8-subband history, the sample of the block it takes.
pub const LOAD8: [usize; 8] = [7, 3, 6, 0, 5, 1, 4, 2];

/// The state of the analysis of one channel: the position in the history, the history
/// of input samples (two halves of eight rows of five), and the partial sums carried
/// to the next block.
#[derive(Copy, Clone)]
pub struct sbc_estate {
    pub idx: usize,
    pub x: [[[i16; 5]; 8]; 2],
    pub y: [i32; 4],
}

/// The state of the analysis of one channel as mathematical values.
#[verifier::ext_equal]
pub struct AnalysisView {
    pub idx: int,
    pub x: Seq<Seq<Seq<i16>>>,
    pub y: Seq<int>,
}

/// The rows of one half of the history.
pub open spec fn spec_xrows(a: [[i16; 5]; 8]) -> Seq<Seq<i16>> {
    Seq::new(8, |k: int| a[k]@)
}

impl View for sbc_estate {
    type V = AnalysisView;

    open spec fn view(&self) -> AnalysisView {
        AnalysisView {
            idx: self.idx as int,
            x: Seq::new(2, |c: int| spec_xrows(self.x[c])),
            y: Seq::new(4, |p: int| self.y[p] as int),
        }
    }
}

/// The largest partial sum carried to the next block as the first one.
pub const CARRY_BOUND: i32 = 0x4000_0000;

impl sbc_estate {
    /// The state is at a position of its history, and its first carried sum is small
    /// enough to be added to that of the next block.
    pub open spec fn wf(&self) -> bool {
        &&& self.idx < 10
        &&& -CARRY_BOUND <= self.y[0] <= CARRY_BOUND
    }

    /// The state of an analysis that has seen no sample.
    pub open spec fn is_initial(&self) -> bool {
        &&& self.idx == 0
        &&& forall|c: int, k: int, j: int|
            0 <= c < 2 && 0 <= k < 8 && 0 <= j < 5 ==> #[trigger] self.x[c][k][j] == 0
        &&& forall|p: int| 0 <= p < 4 ==> #[trigger] self.y[p] == 0
    }

    /// A state that has seen no sample.
    pub fn new() -> (r: Self)
        ensures
            r.wf(),
            r.is_initial(),
    {
        sbc_estate { idx: 0, x: [[[0i16; 5]; 8]; 2], y: [0i32; 4] }
    }
}

/// Row `k` of half `c` of the window of the `n`-subband analysis.
pub open spec fn spec_awindow(n: int, c: int, k: int) -> Seq<i16> {
    if n == 4 {
        AWINDOW4[c][k]@
    } else {
        AWINDOW8[c][k]@
    }
}

/// Coefficient `k` of row `i` of the partial transform of the `n`-subband analysis.
pub open spec fn spec_acos(n: int, i: int, k: int) -> int {
    if n == 4 {
        ACOS4[i][k] as int
    } else {
        ACOS8[i][k] as int
    }
}

/// The sample of a block of `n` that row `k` of the history takes.
pub open spec fn spec_load_pos(n: int, k: int) -> int {
    if n == 4 {
        LOAD4[k] as int
    } else {
        LOAD8[k] as int
    }
}

/// The column of the history that the block at position `idx` is written to.
pub open spec fn spec_load_column(idx: int) -> int {
    if idx / 2 != 0 {
        5 - idx / 2
    } else {
        0
    }
}

/// The history once the `n` samples of `input` were written to it.
pub open spec fn spec_loaded(v: AnalysisView, input: Seq<i16>, n: int) -> Seq<Seq<Seq<i16>>> {
    let odd = v.idx % 2;
    let col = spec_load_column(v.idx);
    v.x.update(
        odd,
        Seq::new(
            8,
            |k: int|
                if k < n {
                    v.x[odd][k].update(col, input[spec_load_pos(n, k)])
                } else {
                    v.x[odd][k]
                },
        ),
    )
}

/// Row `k` of the history `x` at position `idx`, weighted by row `k` of half `c` of the
/// window.
pub open spec fn spec_filter(x: Seq<Seq<Seq<i16>>>, idx: int, n: int, c: int, k: int) -> int {
    spec_window_sum(spec_awindow(n, c, k), idx / 2, x[idx % 2][k], 5)
}

/// Partial sum `i` of a block of `n` subbands, from the history `x` and the sums `y`
/// carried from the previous block.
pub open spec fn spec_partial(v: AnalysisView, x: Seq<Seq<Seq<i16>>>, n: int, i: int) -> int {
    let h = n / 2;
    if i == 0 {
        spec_filter(x, v.idx, n, 0, 0) + v.y[0]
    } else if i < h {
        spec_filter(x, v.idx, n, 0, 2 * i) + spec_filter(x, v.idx, n, 0, 2 * i + 1)
    } else if i < n - 1 {
        v.y[i - h + 1]
    } else {
        spec_filter(x, v.idx, n, 0, 1)
    }
}

/// Partial sum `p` carried to the next block.
pub open spec fn spec_carry(v: AnalysisView, x: Seq<Seq<Seq<i16>>>, n: int, p: int) -> int {
    if p == 0 {
        spec_filter(x, v.idx, n, 1, 0)
    } else if p < n / 2 {
        spec_filter(x, v.idx, n, 1, 2 * p) - spec_filter(x, v.idx, n, 1, 2 * p + 1)
    } else {
        v.y[p]
    }
}

/// Partial sum `i`, rounded from fixed point 2.13 (with samples of 15 bits) and saturated.
pub open spec fn spec_partial_sample(v: AnalysisView, x: Seq<Seq<Seq<i16>>>, n: int, i: int) -> i16 {
    spec_sat16(spec_round_shr(spec_partial(v, x, n, i), 15))
}

/// `sum(y[k] * acos(n, i, k))` over the first `m` values of `y`.
pub open spec fn spec_transform_sum(y: Seq<i16>, n: int, i: int, m: nat) -> int
    decreases m,
{
    if m == 0 {
        0
    } else {
        spec_transform_sum(y, n, i, (m - 1) as nat) + y[m - 1] * spec_acos(n, i, m - 1)
    }
}

/// The rounded partial sums of a block.
pub open spec fn spec_partials(v: AnalysisView, input: Seq<i16>, n: int) -> Seq<i16> {
    let x = spec_loaded(v, input, n);
    Seq::new(n as nat, |i: int| spec_partial_sample(v, x, n, i))
}

/// Subband sample `i` of the analysis of a block of `n` samples, from the state `v`.
pub open spec fn spec_analysis_out(v: AnalysisView, input: Seq<i16>, n: int, i: int) -> i16 {
    spec_sat16(spec_round_shr(spec_transform_sum(spec_partials(v, input, n), n, i, n as nat), 13))
}

/// The state after the analysis of a block of `n` samples.
pub open spec fn spec_analysis_next(v: AnalysisView, input: Seq<i16>, n: int) -> AnalysisView {
    let x = spec_loaded(v, input, n);
    AnalysisView {
        idx: spec_next_index(v.idx),
        x: x,
        y: Seq::new(4, |p: int| spec_carry(v, x, n, p)),
    }
}

/// The magnitude bound of the coefficients in column `j` of the `n`-subband window.
pub open spec fn spec_column_bound(n: int, j: int) -> int {
    let p = j % 5;
    if n == 4 {
        if p == 0 {
            128
        } else if p == 1 {
            2544
        } else if p == 2 {
            9644
        } else if p == 3 {
            4443
        } else {
            358
        }
    } else {
        if p == 0 {
            115
        } else if p == 1 {
            1743
        } else if p == 2 {
            4815
        } else if p == 3 {
            2228
        } else {
            185
        }
    }
}

/// The sum of the bounds of five consecutive columns of the `n`-subband window.
pub open spec fn spec_row_bound(n: int) -> int {
    if n == 4 {
        17117
    } else {
        9086
    }
}

/// The sum of the bounds of columns `off..off + m`.
pub open spec fn spec_bound_sum(n: int, off: int, m: nat) -> int
    decreases m,
{
    if m == 0 {
        0
    } else {
        spec_bound_sum(n, off, (m - 1) as nat) + spec_column_bound(n, off + m - 1)
    }
}

/// Every coefficient of the analysis windows is within the bound of its column.
proof fn lemma_awindow_bounded(n: int)
    requires
        n == 4 || n == 8,
    ensures
        forall|c: int, k: int, j: int|
            0 <= c < 2 && 0 <= k < n && 0 <= j < 10 ==> -spec_column_bound(n, j)
                <= #[trigger] spec_awindow(n, c, k)[j] <= spec_column_bound(n, j),
{
    if n == 4 {
        assert forall|c: int, k: int, j: int| 0 <= c < 2 && 0 <= k < 4 && 0 <= j < 10 implies
            -spec_column_bound(4, j) <= #[trigger] AWINDOW4[c][k][j] <= spec_column_bound(4, j) by {
        }
    } else {
        assert forall|c: int, k: int, j: int| 0 <= c < 2 && 0 <= k < 8 && 0 <= j < 10 implies
            -spec_column_bound(8, j) <= #[trigger] AWINDOW8[c][k][j] <= spec_column_bound(8, j) by {
        }
    }
}

/// Five consecutive columns from one of the first five cover each column class once.
proof fn lemma_bound_sum(n: int, off: int)
    requires
        0 <= off < 5,
    ensures
        spec_bound_sum(n, off, 5) == spec_row_bound(n),
{
    reveal_with_fuel(spec_bound_sum, 6);
    assert(off == 0 || off == 1 || off == 2 || off == 3 || off == 4);
}

/// Row `u` of the history weighted by five coefficients of `w` from column `off`.
fn filter_row(w: &[i16; 10], off: usize, u: &[i16; 5], n: Ghost<int>) -> (r: i64)
    requires
        off < 5,
        n@ == 4 || n@ == 8,
        forall|j: int| 0 <= j < 10 ==> -spec_column_bound(n@, j) <= #[trigger] w[j] <= spec_column_bound(n@, j),
    ensures
        r == spec_window_sum(w@, off as int, u@, 5),
        -0x8000 * spec_row_bound(n@) <= r <= 0x8000 * spec_row_bound(n@),
{
    let mut s: i64 = 0;
    let mut j: usize = 0;
    while j < 5
        invariant
            j <= 5,
            off < 5,
            n@ == 4 || n@ == 8,
            forall|t: int| 0 <= t < 10 ==> -spec_column_bound(n@, t) <= #[trigger] w[t] <= spec_column_bound(n@, t),
            s == spec_window_sum(w@, off as int, u@, j as nat),
            -0x8000 * spec_bound_sum(n@, off as int, j as nat) <= s <= 0x8000 * spec_bound_sum(n@, off as int, j as nat),
            0 <= spec_bound_sum(n@, off as int, j as nat) <= j * 9644,
        decreases 5 - j,
    {
        let a = u[j] as i64;
        let b = w[off + j] as i64;
        let ghost bound = spec_column_bound(n@, (off + j) as int);
        assert(-0x8000 * bound <= b * a <= 0x8000 * bound) by (nonlinear_arith)
            requires
                -0x8000 <= a < 0x8000,
                -bound <= b <= bound,
        ;
        s = s + b * a;
        j += 1;
    }
    proof {
        lemma_bound_sum(n@, off as int);
    }
    s
}

/// `x / 2^shr`, rounded to the nearest integer and saturated to 16 bits.
fn round_sat(x: i64, shr: u64) -> (r: i16)
    requires
        shr == 13 || shr == 15,
        -0x100_0000_0000 <= x <= 0x100_0000_0000,
    ensures
        r == spec_sat16(spec_round_shr(x as int, shr as int)),
{
    proof {
        lemma2_to64();
    }
    let t = x + if shr == 13 {
        4096i64
    } else {
        16384i64
    };
    proof {
        lemma_i64_shr(t, shr);
    }
    let v = t >> shr;
    if v < -32768 {
        -32768
    } else if v > 32767 {
        32767
    } else {
        v as i16
    }
}

/// The `n` samples of the block that starts at `start` of `pcm`, one every `pitch`.
pub open spec fn spec_block_input(pcm: Seq<i16>, start: int, pitch: int, n: int) -> Seq<i16> {
    Seq::new(n as nat, |t: int| pcm[start + t * pitch])
}

/// Writes the samples of a block to column `col` of the rows of a half of the history.
fn load_block(
    hx: &mut [[i16; 5]; 8],
    pcm: &[i16],
    start: usize,
    pitch: usize,
    n: usize,
    col: usize,
)
    requires
        n == 4 || n == 8,
        col < 5,
        start + (n - 1) * pitch < pcm.len(),
    ensures
        forall|r: int|
            0 <= r < 8 ==> #[trigger] final(hx)[r]@ == if r < n {
                old(hx)[r]@.update(
                    col as int,
                    spec_block_input(pcm@, start as int, pitch as int, n as int)[spec_load_pos(
                        n as int,
                        r,
                    )],
                )
            } else {
                old(hx)[r]@
            },
{
    let ghost input = spec_block_input(pcm@, start as int, pitch as int, n as int);
    let ghost h0 = *hx;
    let mut k: usize = 0;
    while k < n
        invariant
            k <= n,
            n == 4 || n == 8,
            col < 5,
            start + (n - 1) * pitch < pcm.len(),
            input == spec_block_input(pcm@, start as int, pitch as int, n as int),
            forall|r: int|
                0 <= r < 8 ==> #[trigger] hx[r]@ == if r < k {
                    h0[r]@.update(col as int, input[spec_load_pos(n as int, r)])
                } else {
                    h0[r]@
                },
        decreases n - k,
    {
        let p = if n == 4 {
            LOAD4[k]
        } else {
            LOAD8[k]
        };
        assert(p < n);
        assert(p * pitch <= (n - 1) * pitch) by (nonlinear_arith)
            requires
                p <= n - 1,
        ;
        let v = pcm[start + p * pitch];
        let ghost before = *hx;
        hx[k][col] = v;
        proof {
            assert(hx[k as int]@ =~= before[k as int]@.update(col as int, v));
        }
        k += 1;
    }
}

/// The rows of a half of the history weighted by the rows of both halves of the window.
fn filter_rows(hx: &[[i16; 5]; 8], half: usize, n: usize) -> (r: ([i64; 8], [i64; 8]))
    requires
        n == 4 || n == 8,
        half < 5,
    ensures
        forall|k: int|
            0 <= k < n ==> {
                &&& #[trigger] r.0[k] == spec_window_sum(spec_awindow(n as int, 0, k), half as int, hx[k]@, 5)
                &&& -0x8000 * spec_row_bound(n as int) <= r.0[k] <= 0x8000 * spec_row_bound(n as int)
            },
        forall|k: int|
            0 <= k < n ==> {
                &&& #[trigger] r.1[k] == spec_window_sum(spec_awindow(n as int, 1, k), half as int, hx[k]@, 5)
                &&& -0x8000 * spec_row_bound(n as int) <= r.1[k] <= 0x8000 * spec_row_bound(n as int)
            },
{
    proof {
        lemma_awindow_bounded(n as int);
    }
    let mut f0: [i64; 8] = [0; 8];
    let mut f1: [i64; 8] = [0; 8];
    let mut k: usize = 0;
    while k < n
        invariant
            k <= n,
            n == 4 || n == 8,
            half < 5,
            forall|c: int, kk: int, j: int|
                0 <= c < 2 && 0 <= kk < n && 0 <= j < 10 ==> -spec_column_bound(n as int, j)
                    <= #[trigger] spec_awindow(n as int, c, kk)[j] <= spec_column_bound(n as int, j),
            forall|kk: int|
                0 <= kk < k ==> {
                    &&& #[trigger] f0[kk] == spec_window_sum(spec_awindow(n as int, 0, kk), half as int, hx[kk]@, 5)
                    &&& -0x8000 * spec_row_bound(n as int) <= f0[kk] <= 0x8000 * spec_row_bound(n as int)
                },
            forall|kk: int|
                0 <= kk < k ==> {
                    &&& #[trigger] f1[kk] == spec_window_sum(spec_awindow(n as int, 1, kk), half as int, hx[kk]@, 5)
                    &&& -0x8000 * spec_row_bound(n as int) <= f1[kk] <= 0x8000 * spec_row_bound(n as int)
                },
        decreases n - k,
    {
        if n == 4 {
            assert forall|j: int| 0 <= j < 10 implies -spec_column_bound(4, j) <= #[trigger] AWINDOW4[0][k as int][j]
                <= spec_column_bound(4, j) by {
                assert(spec_awindow(4, 0, k as int)[j] == AWINDOW4[0][k as int][j]);
            }
            assert forall|j: int| 0 <= j < 10 implies -spec_column_bound(4, j) <= #[trigger] AWINDOW4[1][k as int][j]
                <= spec_column_bound(4, j) by {
                assert(spec_awindow(4, 1, k as int)[j] == AWINDOW4[1][k as int][j]);
            }
            f0[k] = filter_row(&AWINDOW4[0][k], half, &hx[k], Ghost(4));
            f1[k] = filter_row(&AWINDOW4[1][k], half, &hx[k], Ghost(4));
        } else {
            assert forall|j: int| 0 <= j < 10 implies -spec_column_bound(8, j) <= #[trigger] AWINDOW8[0][k as int][j]
                <= spec_column_bound(8, j) by {
                assert(spec_awindow(8, 0, k as int)[j] == AWINDOW8[0][k as int][j]);
            }
            assert forall|j: int| 0 <= j < 10 implies -spec_column_bound(8, j) <= #[trigger] AWINDOW8[1][k as int][j]
                <= spec_column_bound(8, j) by {
                assert(spec_awindow(8, 1, k as int)[j] == AWINDOW8[1][k as int][j]);
            }
            f0[k] = filter_row(&AWINDOW8[0][k], half, &hx[k], Ghost(8));
            f1[k] = filter_row(&AWINDOW8[1][k], half, &hx[k], Ghost(8));
        }
        assert(f0[k as int] == spec_window_sum(spec_awindow(n as int, 0, k as int), half as int, hx[k as int]@, 5));
        assert(f1[k as int] == spec_window_sum(spec_awindow(n as int, 1, k as int), half as int, hx[k as int]@, 5));
        k += 1;
    }
    (f0, f1)
}

/// The coefficients of the partial transforms are at most `2^13` in magnitude.
proof fn lemma_acos_bounded(n: int)
    requires
        n == 4 || n == 8,
    ensures
        forall|i: int, k: int| 0 <= i < n && 0 <= k < n ==> -8192 <= #[trigger] spec_acos(n, i, k) <= 8192,
{
    if n == 4 {
        assert forall|i: int, k: int| 0 <= i < 4 && 0 <= k < 4 implies -8192 <= #[trigger] ACOS4[i][k] <= 8192 by {
        }
    } else {
        assert forall|i: int, k: int| 0 <= i < 8 && 0 <= k < 8 implies -8192 <= #[trigger] ACOS8[i][k] <= 8192 by {
        }
    }
}

/// The partial transform of the rounded partial sums `ys`, written to `out` from `ostart`.
fn transform(ys: &[i16; 8], n: usize, out: &mut [i16; 128], ostart: usize)
    requires
        n == 4 || n == 8,
        ostart + n <= 128,
    ensures
        forall|i: int|
            0 <= i < n ==> #[trigger] final(out)[ostart + i] == spec_sat16(
                spec_round_shr(spec_transform_sum(ys@, n as int, i, n as nat), 13),
            ),
        forall|j: int| 0 <= j < 128 && !(ostart <= j < ostart + n) ==> #[trigger] final(out)[j] == old(out)[j],
{
    proof {
        lemma_acos_bounded(n as int);
    }
    let ghost o0 = *out;
    let mut i: usize = 0;
    while i < n
        invariant
            i <= n,
            n == 4 || n == 8,
            ostart + n <= 128,
            forall|ii: int, k: int| 0 <= ii < n && 0 <= k < n ==> -8192 <= #[trigger] spec_acos(n as int, ii, k) <= 8192,
            forall|ii: int|
                0 <= ii < i ==> #[trigger] out[ostart + ii] == spec_sat16(
                    spec_round_shr(spec_transform_sum(ys@, n as int, ii, n as nat), 13),
                ),
            forall|j: int| 0 <= j < 128 && !(ostart <= j < ostart + i) ==> #[trigger] out[j] == o0[j],
        decreases n - i,
    {
        let mut s: i64 = 0;
        let mut k: usize = 0;
        while k < n
            invariant
                k <= n,
                i < n,
                n == 4 || n == 8,
                forall|ii: int, kk: int| 0 <= ii < n && 0 <= kk < n ==> -8192 <= #[trigger] spec_acos(n as int, ii, kk) <= 8192,
                s == spec_transform_sum(ys@, n as int, i as int, k as nat),
                -0x1000_0000 * k <= s <= 0x1000_0000 * k,
            decreases n - k,
        {
            let c: i32 = if n == 4 {
                ACOS4[i][k]
            } else {
                ACOS8[i][k]
            };
            assert(c == spec_acos(n as int, i as int, k as int));
            let a = ys[k] as i64;
            assert(-0x1000_0000 <= a * (c as i64) <= 0x1000_0000) by (nonlinear_arith)
                requires
                    -0x8000 <= a < 0x8000,
                    -8192 <= c <= 8192,
            ;
            s = s + a * (c as i64);
            k += 1;
        }
        out[ostart + i] = round_sat(s, 13);
        i += 1;
    }
}

/// The transform of two sequences that agree on their first `m` values.
proof fn lemma_transform_sum_same(a: Seq<i16>, b: Seq<i16>, n: int, i: int, m: nat)
    requires
        m <= a.len(),
        m <= b.len(),
        forall|k: int| 0 <= k < m ==> a[k] == b[k],
    ensures
        spec_transform_sum(a, n, i, m) == spec_transform_sum(b, n, i, m),
    decreases m,
{
    if m > 0 {
        lemma_transform_sum_same(a, b, n, i, (m - 1) as nat);
    }
}

/// Analyses the block of `n` samples of `pcm` that starts at `start`, one every `pitch`:
/// updates the state and writes the `n` subband samples to `out` from `ostart`.
fn analyze_block(
    state: &mut sbc_estate,
    pcm: &[i16],
    start: usize,
    pitch: usize,
    n: usize,
    out: &mut [i16; 128],
    ostart: usize,
)
    requires
        old(state).wf(),
        n == 4 || n == 8,
        start + (n - 1) * pitch < pcm.len(),
        ostart + n <= 128,
    ensures
        final(state).wf(),
        final(state)@ == spec_analysis_next(
            old(state)@,
            spec_block_input(pcm@, start as int, pitch as int, n as int),
            n as int,
        ),
        forall|i: int|
            0 <= i < n ==> #[trigger] final(out)[ostart + i] == spec_analysis_out(
                old(state)@,
                spec_block_input(pcm@, start as int, pitch as int, n as int),
                n as int,
                i,
            ),
        forall|j: int| 0 <= j < 128 && !(ostart <= j < ostart + n) ==> #[trigger] final(out)[j] == old(out)[j],
{
    let ghost v0 = state@;
    let ghost s0 = *state;
    let ghost input = spec_block_input(pcm@, start as int, pitch as int, n as int);
    let ghost x = spec_loaded(v0, input, n as int);
    let idx = state.idx;
    let half = idx / 2;
    let odd = idx % 2;
    let col = if half != 0 {
        5 - half
    } else {
        0
    };

    /* --- Load the block into the history --- */
    let mut hx = state.x[odd];
    load_block(&mut hx, pcm, start, pitch, n, col);
    state.x[odd] = hx;
    proof {
        assert forall|c: int, r: int| 0 <= c < 2 && 0 <= r < 8 implies #[trigger] x[c][r] == state.x[c][r]@ by {
            if c == odd as int && r < n {
                assert(x[c][r] =~= hx[r]@);
            }
        }
    }

    /* --- Filter the history with both halves of the window --- */
    let (f0, f1) = filter_rows(&hx, half, n);
    assert forall|k: int| 0 <= k < n implies #[trigger] f0[k] == spec_filter(x, idx as int, n as int, 0, k) by {
        assert(x[odd as int][k] == hx[k]@);
    }
    assert forall|k: int| 0 <= k < n implies #[trigger] f1[k] == spec_filter(x, idx as int, n as int, 1, k) by {
        assert(x[odd as int][k] == hx[k]@);
    }

    /* --- Partial sums of this block, rounded, and those carried to the next --- */
    let y = state.y;
    let h = n / 2;
    let mut ys: [i16; 8] = [0; 8];
    let mut i: usize = 0;
    while i < n
        invariant
            i <= n,
            n == 4 || n == 8,
            h == n / 2,
            y == s0.y,
            v0 == s0@,
            s0.wf(),
            idx == s0.idx,
            forall|k: int| 0 <= k < n ==> #[trigger] f0[k] == spec_filter(x, idx as int, n as int, 0, k),
            forall|k: int|
                0 <= k < n ==> -0x8000 * spec_row_bound(n as int) <= #[trigger] f0[k] <= 0x8000
                    * spec_row_bound(n as int),
            forall|k: int| 0 <= k < n ==> #[trigger] f1[k] == spec_filter(x, idx as int, n as int, 1, k),
            forall|k: int|
                0 <= k < n ==> -0x8000 * spec_row_bound(n as int) <= #[trigger] f1[k] <= 0x8000
                    * spec_row_bound(n as int),
            forall|r: int| 0 <= r < i ==> #[trigger] ys[r] == spec_partial_sample(v0, x, n as int, r),
        decreases n - i,
    {
        let p: i64 = if i == 0 {
            f0[0] + y[0] as i64
        } else if i < h {
            f0[2 * i] + f0[2 * i + 1]
        } else if i < n - 1 {
            y[i - h + 1] as i64
        } else {
            f0[1]
        };
        assert(p == spec_partial(v0, x, n as int, i as int));
        ys[i] = round_sat(p, 15);
        i += 1;
    }
    let mut ny = y;
    ny[0] = f1[0] as i32;
    let mut q: usize = 1;
    while q < h
        invariant
            1 <= q <= h,
            n == 4 || n == 8,
            h == n / 2,
            y == s0.y,
            v0 == s0@,
            idx == s0.idx,
            forall|k: int| 0 <= k < n ==> #[trigger] f1[k] == spec_filter(x, idx as int, n as int, 1, k),
            forall|k: int|
                0 <= k < n ==> -0x8000 * spec_row_bound(n as int) <= #[trigger] f1[k] <= 0x8000
                    * spec_row_bound(n as int),
            ny[0] == f1[0],
            forall|r: int| 1 <= r < q ==> #[trigger] ny[r] == spec_carry(v0, x, n as int, r),
            forall|r: int| q <= r < 4 ==> #[trigger] ny[r] == y[r],
        decreases h - q,
    {
        ny[q] = (f1[2 * q] - f1[2 * q + 1]) as i32;
        q += 1;
    }
    state.y = ny;
    state.idx = if idx < 9 {
        idx + 1
    } else {
        0
    };
    proof {
        assert(state@.x =~~= x);
        assert(state@.y =~= Seq::new(4, |r: int| spec_carry(v0, x, n as int, r)));
    }

    /* --- Partial transform of the rounded sums --- */
    transform(&ys, n, out, ostart);
    proof {
        let sp = spec_partials(v0, input, n as int);
        assert forall|i2: int| 0 <= i2 < n implies spec_transform_sum(ys@, n as int, i2, n as nat)
            == spec_transform_sum(sp, n as int, i2, n as nat) by {
            lemma_transform_sum_same(ys@, sp, n as int, i2, n as nat);
        }
    }
}

/// Analyses a block of four samples of `pcm` from `start`, one every `pitch`.
fn analyze_4(
    state: &mut sbc_estate,
    pcm: &[i16],
    start: usize,
    pitch: usize,
    out: &mut [i16; 128],
    ostart: usize,
)
    requires
        old(state).wf(),
        start + 3 * pitch < pcm.len(),
        ostart + 4 <= 128,
    ensures
        final(state).wf(),
        final(state)@ == spec_analysis_next(
            old(state)@,
            spec_block_input(pcm@, start as int, pitch as int, 4),
            4,
        ),
        forall|i: int|
            0 <= i < 4 ==> #[trigger] final(out)[ostart + i] == spec_analysis_out(
                old(state)@,
                spec_block_input(pcm@, start as int, pitch as int, 4),
                4,
                i,
            ),
        forall|j: int| 0 <= j < 128 && !(ostart <= j < ostart + 4) ==> #[trigger] final(out)[j] == old(out)[j],
{
    analyze_block(state, pcm, start, pitch, 4, out, ostart);
}

/// Analyses a block of eight samples of `pcm` from `start`, one every `pitch`.
fn analyze_8(
    state: &mut sbc_estate,
    pcm: &[i16],
    start: usize,
    pitch: usize,
    out: &mut [i16; 128],
    ostart: usize,
)
    requires
        old(state).wf(),
        start + 7 * pitch < pcm.len(),
        ostart + 8 <= 128,
    ensures
        final(state).wf(),
        final(state)@ == spec_analysis_next(
            old(state)@,
            spec_block_input(pcm@, start as int, pitch as int, 8),
            8,
        ),
        forall|i: int|
            0 <= i < 8 ==> #[trigger] final(out)[ostart + i] == spec_analysis_out(
                old(state)@,
                spec_block_input(pcm@, start as int, pitch as int, 8),
                8,
                i,
            ),
        forall|j: int| 0 <= j < 128 && !(ostart <= j < ostart + 8) ==> #[trigger] final(out)[j] == old(out)[j],
{
    analyze_block(state, pcm, start, pitch, 8, out, ostart);
}

/// The state after the analysis of the first `b` blocks of `n` samples of `pcm`, whose
/// samples are one every `pitch`.
pub open spec fn spec_analysis_state(
    v: AnalysisView,
    pcm: Seq<i16>,
    pitch: int,
    n: int,
    b: nat,
) -> AnalysisView
    decreases b,
{
    if b == 0 {
        v
    } else {
        let p = spec_analysis_state(v, pcm, pitch, n, (b - 1) as nat);
        spec_analysis_next(p, spec_block_input(pcm, (b - 1) * n * pitch, pitch, n), n)
    }
}

/// Subband sample `t` of the analysis of the blocks of `n` samples of `pcm`: sample
/// `t % n` of block `t / n`.
pub open spec fn spec_subband_sample(
    v: AnalysisView,
    pcm: Seq<i16>,
    pitch: int,
    n: int,
    t: int,
) -> i16 {
    let b = t / n;
    spec_analysis_out(
        spec_analysis_state(v, pcm, pitch, n, b as nat),
        spec_block_input(pcm, b * n * pitch, pitch, n),
        n,
        t % n,
    )
}

/// Block `iblk` of `nb` blocks of `n` samples, one every `pitch`, ends within the last block.
proof fn lemma_block_start(iblk: int, nb: int, n: int, pitch: int)
    requires
        0 <= iblk < nb,
        n >= 1,
        pitch >= 0,
    ensures
        iblk * n * pitch + (n - 1) * pitch <= (nb * n - 1) * pitch,
        (iblk + 1) * n * pitch == iblk * n * pitch + n * pitch,
{
    vstd::arithmetic::mul::lemma_mul_inequality(iblk + 1, nb, n);
    let a = iblk * n + n - 1;
    let b = nb * n - 1;
    assert((iblk + 1) * n == iblk * n + n) by (nonlinear_arith);
    vstd::arithmetic::mul::lemma_mul_inequality(a, b, pitch);
    assert(a * pitch == iblk * n * pitch + (n - 1) * pitch) by (nonlinear_arith)
        requires
            a == iblk * n + n - 1,
    ;
    assert((iblk + 1) * n * pitch == iblk * n * pitch + n * pitch) by (nonlinear_arith);
}

/// Analyses the `nblocks` blocks of `nsubbands` samples of `pcm`, one every `pitch`,
/// into the subband samples `out`.
pub(crate) fn analyze(
    state: &mut sbc_estate,
    nblocks: usize,
    nsubbands: usize,
    pcm: &[i16],
    pitch: usize,
    out: &mut [i16; 128],
)
    requires
        old(state).wf(),
        nsubbands == 4 || nsubbands == 8,
        1 <= nblocks,
        nblocks * nsubbands <= 128,
        (nblocks * nsubbands - 1) * pitch < pcm.len(),
    ensures
        final(state).wf(),
        final(state)@ == spec_analysis_state(
            old(state)@,
            pcm@,
            pitch as int,
            nsubbands as int,
            nblocks as nat,
        ),
        forall|t: int|
            0 <= t < nblocks * nsubbands ==> #[trigger] final(out)[t] == spec_subband_sample(
                old(state)@,
                pcm@,
                pitch as int,
                nsubbands as int,
                t,
            ),
        forall|t: int| nblocks * nsubbands <= t < 128 ==> #[trigger] final(out)[t] == old(out)[t],
{
    let ghost v0 = state@;
    let ghost o0 = *out;
    let n = nsubbands;
    let mut iblk: usize = 0;
    let mut ostart: usize = 0;
    while iblk < nblocks
        invariant
            iblk <= nblocks,
            n == nsubbands,
            n == 4 || n == 8,
            nblocks * n <= 128,
            (nblocks * n - 1) * pitch < pcm.len(),
            ostart == iblk * n,
            state.wf(),
            state@ == spec_analysis_state(v0, pcm@, pitch as int, n as int, iblk as nat),
            forall|t: int|
                0 <= t < iblk * n ==> #[trigger] out[t] == spec_subband_sample(
                    v0,
                    pcm@,
                    pitch as int,
                    n as int,
                    t,
                ),
            forall|t: int| iblk * n <= t < 128 ==> #[trigger] out[t] == o0[t],
        decreases nblocks - iblk,
    {
        proof {
            lemma_block_start(iblk as int, nblocks as int, n as int, pitch as int);
        }
        let start = ostart * pitch;
        assert(ostart + n <= 128) by (nonlinear_arith)
            requires
                ostart == iblk * n,
                iblk + 1 <= nblocks,
                nblocks * n <= 128,
        ;
        let ghost before = state@;
        let ghost input = spec_block_input(pcm@, start as int, pitch as int, n as int);
        if n == 4 {
            analyze_4(state, pcm, start, pitch, out, ostart);
        } else {
            analyze_8(state, pcm, start, pitch, out, ostart);
        }
        proof {
            assert forall|t: int| 0 <= t < (iblk + 1) * n implies #[trigger] out[t] == spec_subband_sample(
                v0,
                pcm@,
                pitch as int,
                n as int,
                t,
            ) by {
                if t >= iblk * n {
                    let i = t - iblk * n;
                    lemma_fundamental_div_mod_converse(t, n as int, iblk as int, i);
                    assert(out[ostart + i] == spec_analysis_out(before, input, n as int, i));
                }
            }
        }
        iblk += 1;
        ostart = ostart + n;
    }
}

} // verus!
