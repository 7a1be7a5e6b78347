use vstd::arithmetic::div_mod::*;
use vstd::arithmetic::power2::*;
use vstd::bits::*;
use vstd::prelude::*;

verus! {

/// Direction of a bit stream.
#[derive(Debug, Copy, Clone, PartialEq, Eq, Structural)]
pub enum Mode {
    Read,
    Write,
}

/// The bit accumulator: `nleft` bits of `v` are still free (write) or unread (read);
/// `nover` counts the bits that were read past the end of the data.
#[derive(Copy, Clone)]
pub struct Accu {
    pub v: u32,
    pub nleft: usize,
    pub nover: usize,
}

/// Number of bytes of the accumulator.
pub const ACCU_BYTES: usize = 4;

/// Number of bits of the accumulator.
pub const ACCU_BITS: usize = 32;

/// The byte buffer: `p` is the index of the next byte, `nleft` the number of bytes after it.
#[derive(Clone)]
pub struct Data {
    pub buf: Vec<u8>,
    pub p: usize,
    pub nbytes: usize,
    pub nleft: usize,
}

/// Bit `i` of the stream formed by `d`, most significant bit of each byte first,
/// followed by zero bits without end.
pub open spec fn stream_bit(d: Seq<u8>, i: int) -> nat {
    if 0 <= i < 8 * d.len() {
        ((d[i / 8] >> ((7 - i % 8) as u8)) & 1u8) as nat
    } else {
        0
    }
}

/// The unsigned number formed by the `n` stream bits starting at bit `p`, first bit most significant.
pub open spec fn bits_value(d: Seq<u8>, p: int, n: nat) -> nat
    decreases n,
{
    if n == 0 {
        0
    } else {
        2 * bits_value(d, p, (n - 1) as nat) + stream_bit(d, p + n - 1)
    }
}

/// A stream bit is zero or one.
pub proof fn lemma_stream_bit_le1(d: Seq<u8>, i: int)
    ensures
        stream_bit(d, i) <= 1,
{
    if 0 <= i < 8 * d.len() {
        let x = d[i / 8];
        let s = (7 - i % 8) as u8;
        assert((x >> s) & 1u8 <= 1u8) by (bit_vector);
    }
}

/// A value read from `n` bits is below `2^n`.
pub proof fn lemma_bits_value_bound(d: Seq<u8>, p: int, n: nat)
    ensures
        bits_value(d, p, n) < pow2(n),
    decreases n,
{
    if n == 0 {
        lemma2_to64();
    } else {
        lemma_bits_value_bound(d, p, (n - 1) as nat);
        lemma_pow2_unfold(n);
        lemma_stream_bit_le1(d, p + n - 1);
    }
}

/// Reading `a + b` bits is reading `a` bits, then `b` bits.
pub proof fn lemma_bits_value_split(d: Seq<u8>, p: int, a: nat, b: nat)
    ensures
        bits_value(d, p, a + b) == bits_value(d, p, a) * pow2(b) + bits_value(d, p + a, b),
    decreases b,
{
    if b == 0 {
        lemma2_to64();
    } else {
        lemma_bits_value_split(d, p, a, (b - 1) as nat);
        lemma_pow2_unfold(b);
        assert(bits_value(d, p, a + b) == 2 * bits_value(d, p, (a + b - 1) as nat) + stream_bit(
            d,
            p + a + b - 1,
        ));
        assert(bits_value(d, p + a, b) == 2 * bits_value(d, p + a, (b - 1) as nat) + stream_bit(
            d,
            p + a + b - 1,
        ));
        assert(bits_value(d, p, a) * pow2(b) == 2 * (bits_value(d, p, a) * pow2((b - 1) as nat)))
            by (nonlinear_arith)
            requires
                pow2(b) == 2 * pow2((b - 1) as nat),
        ;
    }
}

/// A read gives back what was written: when the `len` bits of a stream from bit `p` form
/// `value`, the `b` bits from bit `p + a` form the bits of `value` at the same place.
pub proof fn lemma_written_bits_read_back(d: Seq<u8>, p: int, len: nat, value: nat, a: nat, b: nat)
    requires
        bits_value(d, p, len) == value,
        a + b <= len,
    ensures
        bits_value(d, p + a, b) == (value / pow2((len - a - b) as nat)) % pow2(b),
{
    let c = (len - a - b) as nat;
    lemma_bits_value_split(d, p, a, (b + c) as nat);
    lemma_bits_value_split(d, p + a, b, c);
    lemma_bits_value_bound(d, p + a + b, c);
    lemma_bits_value_bound(d, p + a, b);
    lemma_pow2_adds(b, c);
    lemma_pow2_pos(b);
    lemma_pow2_pos(c);
    let x = bits_value(d, p, a) as int;
    let y = bits_value(d, p + a, b) as int;
    let z = bits_value(d, p + a + b, c) as int;
    let pb = pow2(b) as int;
    let pc = pow2(c) as int;
    assert(value == (x * pb + y) * pc + z) by (nonlinear_arith)
        requires
            value == x * (pb * pc) + (y * pc + z),
    ;
    lemma_fundamental_div_mod_converse(value as int, pc, x * pb + y, z);
    lemma_fundamental_div_mod_converse(x * pb + y, pb, x, y);
}

/// The value of fields written one after another, each `(v, n)` as the low `n` bits of
/// `v`: what `Bits::put_bits` makes of the written value, call by call.
pub open spec fn spec_fields_value(fields: Seq<(u32, u32)>) -> nat
    decreases fields.len(),
{
    if fields.len() == 0 {
        0
    } else {
        let (v, n) = fields.last();
        spec_fields_value(fields.drop_last()) * pow2(n as nat) + (v as nat) % pow2(n as nat)
    }
}

/// The number of bits of fields written one after another.
pub open spec fn spec_fields_len(fields: Seq<(u32, u32)>) -> nat
    decreases fields.len(),
{
    if fields.len() == 0 {
        0
    } else {
        spec_fields_len(fields.drop_last()) + fields.last().1 as nat
    }
}

/// One more field: its bits follow those of the fields before it, as `Bits::put_bits`
/// appends them to the written value and length.
pub proof fn lemma_fields_push(fields: Seq<(u32, u32)>, v: u32, n: u32)
    ensures
        spec_fields_value(fields.push((v, n))) == spec_fields_value(fields) * pow2(n as nat) + (
        v as nat) % pow2(n as nat),
        spec_fields_len(fields.push((v, n))) == spec_fields_len(fields) + n,
{
    assert(fields.push((v, n)).drop_last() =~= fields);
}

/// A read gives back each of a sequence of writes: when the bits of a stream from bit `p`
/// hold the fields `fields` written one after another, the field `i` is read from the
/// bit that follows the fields before it, and gives the low bits of the value written.
pub proof fn lemma_fields_read_back(d: Seq<u8>, p: int, fields: Seq<(u32, u32)>, i: int)
    requires
        bits_value(d, p, spec_fields_len(fields)) == spec_fields_value(fields),
        0 <= i < fields.len(),
    ensures
        bits_value(d, p + spec_fields_len(fields.take(i)), fields[i].1 as nat) == (
        fields[i].0 as nat) % pow2(fields[i].1 as nat),
    decreases fields.len(),
{
    let front = fields.drop_last();
    let (v, n) = fields.last();
    let a = spec_fields_len(front);
    let nn = n as nat;
    lemma_bits_value_split(d, p, a, nn);
    lemma_bits_value_bound(d, p + a, nn);
    lemma_pow2_pos(nn);
    let x = bits_value(d, p, a) as int;
    let y = bits_value(d, p + a, nn) as int;
    let pn = pow2(nn) as int;
    let w = ((v as nat) % pow2(nn)) as int;
    lemma_fundamental_div_mod_converse(x * pn + y, pn, x, y);
    lemma_fundamental_div_mod_converse(x * pn + y, pn, spec_fields_value(front) as int, w);
    if i == fields.len() - 1 {
        assert(fields.take(i) =~= front);
    } else {
        lemma_fields_read_back(d, p, front, i);
        assert(front.take(i) =~= fields.take(i));
    }
}

/// Past the end of the data every bit is zero.
pub proof fn lemma_bits_value_past_end(d: Seq<u8>, p: int, n: nat)
    requires
        p >= 8 * d.len(),
    ensures
        bits_value(d, p, n) == 0,
    decreases n,
{
    if n > 0 {
        lemma_bits_value_past_end(d, p, (n - 1) as nat);
    }
}

/// The eight bits at a byte boundary form that byte.
pub proof fn lemma_bits_value_byte(d: Seq<u8>, k: int)
    requires
        0 <= k,
    ensures
        bits_value(d, 8 * k, 8) == if k < d.len() {
            d[k] as nat
        } else {
            0
        },
{
    reveal_with_fuel(bits_value, 9);
    if k < d.len() {
        let x = d[k];
        lemma_fundamental_div_mod_converse(8 * k + 0, 8, k, 0);
        lemma_fundamental_div_mod_converse(8 * k + 1, 8, k, 1);
        lemma_fundamental_div_mod_converse(8 * k + 2, 8, k, 2);
        lemma_fundamental_div_mod_converse(8 * k + 3, 8, k, 3);
        lemma_fundamental_div_mod_converse(8 * k + 4, 8, k, 4);
        lemma_fundamental_div_mod_converse(8 * k + 5, 8, k, 5);
        lemma_fundamental_div_mod_converse(8 * k + 6, 8, k, 6);
        lemma_fundamental_div_mod_converse(8 * k + 7, 8, k, 7);
        assert(stream_bit(d, 8 * k + 0) == ((x >> 7u8) & 1u8) as nat);
        assert(stream_bit(d, 8 * k + 1) == ((x >> 6u8) & 1u8) as nat);
        assert(stream_bit(d, 8 * k + 2) == ((x >> 5u8) & 1u8) as nat);
        assert(stream_bit(d, 8 * k + 3) == ((x >> 4u8) & 1u8) as nat);
        assert(stream_bit(d, 8 * k + 4) == ((x >> 3u8) & 1u8) as nat);
        assert(stream_bit(d, 8 * k + 5) == ((x >> 2u8) & 1u8) as nat);
        assert(stream_bit(d, 8 * k + 6) == ((x >> 1u8) & 1u8) as nat);
        assert(stream_bit(d, 8 * k + 7) == ((x >> 0u8) & 1u8) as nat);
        assert(x == 128 * ((x >> 7u8) & 1u8) + 64 * ((x >> 6u8) & 1u8) + 32 * ((x >> 5u8) & 1u8)
            + 16 * ((x >> 4u8) & 1u8) + 8 * ((x >> 3u8) & 1u8) + 4 * ((x >> 2u8) & 1u8) + 2 * ((x
            >> 1u8) & 1u8) + ((x >> 0u8) & 1u8)) by (bit_vector);
    } else {
        lemma_bits_value_past_end(d, 8 * k, 8);
    }
}

/// The `n` stream bits starting `a` bits into byte `k` form a field of that byte.
pub proof fn lemma_bits_in_byte(d: Seq<u8>, k: int, a: nat, n: nat)
    requires
        0 <= k < d.len(),
        a + n <= 8,
    ensures
        bits_value(d, 8 * k + a, n) == ((d[k] as nat) % pow2((8 - a) as nat)) / pow2(
            (8 - a - n) as nat,
        ),
{
    let x = d[k] as nat;
    let r = (8 - a) as nat;
    let s = (8 - a - n) as nat;
    lemma_bits_value_byte(d, k);
    lemma_bits_value_split(d, 8 * k, a, r);
    lemma_bits_value_bound(d, 8 * k + a, r);
    lemma_pow2_pos(r);
    lemma_pow2_pos(s);
    lemma_fundamental_div_mod_converse(
        x as int,
        pow2(r) as int,
        bits_value(d, 8 * k, a) as int,
        bits_value(d, 8 * k + a, r) as int,
    );
    lemma_bits_value_split(d, 8 * k + a, n, s);
    lemma_bits_value_bound(d, 8 * k + a + n, s);
    lemma_fundamental_div_mod_converse(
        bits_value(d, 8 * k + a, r) as int,
        pow2(s) as int,
        bits_value(d, 8 * k + a, n) as int,
        bits_value(d, 8 * k + a + n, s) as int,
    );
}

/// Bit `j` of a value read from `n` bits, counted from the most significant, is stream bit
/// `p + j`.
pub proof fn lemma_bits_value_bit(d: Seq<u8>, p: int, n: nat, j: nat)
    requires
        j < n,
    ensures
        (bits_value(d, p, n) / pow2((n - 1 - j) as nat)) % 2 == stream_bit(d, p + j),
{
    let r = (n - 1 - j) as nat;
    lemma_bits_value_split(d, p, j + 1, r);
    lemma_bits_value_bound(d, p + j + 1, r);
    lemma_pow2_pos(r);
    lemma_fundamental_div_mod_converse(
        bits_value(d, p, n) as int,
        pow2(r) as int,
        bits_value(d, p, j + 1) as int,
        bits_value(d, p + j + 1, r) as int,
    );
    lemma_stream_bit_le1(d, p + j);
    assert(bits_value(d, p, j + 1) == 2 * bits_value(d, p, j) + stream_bit(d, p + j));
    lemma_fundamental_div_mod_converse(
        bits_value(d, p, j + 1) as int,
        2,
        bits_value(d, p, j) as int,
        stream_bit(d, p + j) as int,
    );
}

/// Taking the `n` high bits of the `total` low bits of an accumulator.
proof fn lemma_take_high(v: u32, total: nat, n: nat, d: Seq<u8>, p: int)
    requires
        n <= total <= 32,
        total - n < 32,
        n < 32,
        (v as nat) % pow2(total) == bits_value(d, p, total),
    ensures
        ((v >> ((total - n) as u32)) & (((1u32 << (n as u32)) - 1) as u32)) as nat == bits_value(
            d,
            p,
            n,
        ),
        (v as nat) % pow2((total - n) as nat) == bits_value(d, p + n, (total - n) as nat),
        (1u32 << (n as u32)) as nat == pow2(n),
        pow2(n) >= 1,
{
    let s = (total - n) as nat;
    lemma_u32_pow2_no_overflow(n);
    lemma_u32_pow2_no_overflow(s);
    lemma_u32_shl_is_mul(1u32, n as u32);
    lemma_pow2_pos(n);
    lemma_pow2_pos(s);
    let mask = ((1u32 << (n as u32)) - 1) as u32;
    assert(mask == low_bits_mask(n));
    lemma_u32_shr_is_div(v, s as u32);
    let q = v >> (s as u32);
    assert(q as nat == (v as nat) / pow2(s));
    lemma_u32_low_bits_mask_is_mod(q, n);
    assert((q & mask) as nat == (q as nat) % pow2(n));
    lemma_pow2_adds(s, n);
    assert(pow2(total) == pow2(s) * pow2(n));
    lemma_mod_breakdown(v as int, pow2(s) as int, pow2(n) as int);
    // v % 2^total == 2^s * ((v / 2^s) % 2^n) + v % 2^s
    lemma_bits_value_split(d, p, n, s);
    lemma_bits_value_bound(d, p + n, s);
    lemma_bits_value_bound(d, p, n);
    let hi = ((v as nat) / pow2(s)) % pow2(n);
    let lo = (v as nat) % pow2(s);
    assert((v as nat) % pow2(total) == hi * pow2(s) + lo) by (nonlinear_arith)
        requires
            (v as nat) % (pow2(s) * pow2(n)) == pow2(s) * hi + lo,
            pow2(total) == pow2(s) * pow2(n),
    ;
    lemma_fundamental_div_mod_converse(
        ((v as nat) % pow2(total)) as int,
        pow2(s) as int,
        hi as int,
        lo as int,
    );
    lemma_fundamental_div_mod_converse(
        ((v as nat) % pow2(total)) as int,
        pow2(s) as int,
        bits_value(d, p, n) as int,
        bits_value(d, p + n, s) as int,
    );
}

/// A value shifted left by `s` bits and a smaller one below it, taken modulo `2^(m + s)`,
/// keep the value modulo `2^m`.
proof fn lemma_mod_shifted(a: nat, m: nat, s: nat, b: nat)
    requires
        b < pow2(s),
    ensures
        (a * pow2(s) + b) % pow2(m + s) == (a % pow2(m)) * pow2(s) + b,
{
    lemma_pow2_pos(m);
    lemma_pow2_pos(s);
    lemma_pow2_adds(m, s);
    let pm = pow2(m) as int;
    let ps = pow2(s) as int;
    let q = a as int / pm;
    let r = a as int % pm;
    lemma_fundamental_div_mod(a as int, pm);
    assert(a * ps + b == q * (pm * ps) + (r * ps + b)) by (nonlinear_arith)
        requires
            a == pm * q + r,
    ;
    assert(0 <= r * ps + b < pm * ps) by (nonlinear_arith)
        requires
            0 <= r < pm,
            0 <= b < ps,
    ;
    lemma_fundamental_div_mod_converse(a * ps + b, pm * ps, q, r * ps + b);
}

/// Keeping the low `n` bits of the low `m` bits of `v` is keeping its low `n` bits.
proof fn lemma_mod_pow2_mod(v: nat, n: nat, m: nat)
    requires
        n <= m,
    ensures
        (v % pow2(m)) % pow2(n) == v % pow2(n),
{
    lemma_pow2_pos(n);
    lemma_pow2_pos((m - n) as nat);
    lemma_pow2_adds(n, (m - n) as nat);
    lemma_mod_mod(v as int, pow2(n) as int, pow2((m - n) as nat) as int);
}

/// Shifting left by `s` bits keeps the low `32 - s` bits, times `2^s`.
proof fn lemma_shl_low(v: u32, s: u32)
    requires
        0 < s < 32,
    ensures
        (v << s) as nat == ((v as nat) % pow2((32 - s) as nat)) * pow2(s as nat),
{
    let k = (32 - s) as u32;
    lemma_u32_pow2_no_overflow(k as nat);
    lemma_u32_shl_is_mul(1u32, k);
    let mask = low_bits_mask(k as nat) as u32;
    assert(mask + 1 == 1u32 << k);
    assert(v << s == (v & mask) << s) by (bit_vector)
        requires
            0 < s < 32,
            k == 32 - s,
            mask + 1 == 1u32 << k,
    ;
    lemma_u32_low_bits_mask_is_mod(v, k as nat);
    let lo = v % (1u32 << k);
    lemma_pow2_pos(s as nat);
    lemma_pow2_adds(k as nat, s as nat);
    lemma2_to64();
    assert(lo * pow2(s as nat) <= u32::MAX) by (nonlinear_arith)
        requires
            lo < pow2(k as nat),
            pow2(k as nat) * pow2(s as nat) == 0x1_0000_0000,
            pow2(s as nat) > 0,
    ;
    lemma_u32_shl_is_mul(lo, s);
}

/// Appending a byte to an accumulator holding `nl` meaningful bits.
proof fn lemma_push_byte(v: u32, b: u8, nl: nat, val: nat)
    requires
        nl <= 24,
        (v as nat) % pow2(nl) == val,
    ensures
        ((((v << 8u32) | (b as u32)) as u32) as nat) % pow2(nl + 8) == val * 256 + b,
{
    lemma2_to64();
    assert(((v << 8u32) | (b as u32)) as nat == ((v % 0x1000000) * 256 + b as u32) as nat)
        by (bit_vector);
    let lo = ((v as nat) % pow2(24)) as nat;
    lemma_mod_shifted(lo, nl, 8, b as nat);
    lemma_mod_pow2_mod(v as nat, nl, 24);
}

/// Filling the free bits of an accumulator holding `nl` meaningful bits with `s` zeros.
proof fn lemma_zero_fill(v: u32, nl: usize, s: usize)
    requires
        0 < s <= 32,
        nl + s <= 32,
    ensures
        ((if s < 32 {
            v << (s as u32)
        } else {
            0u32
        }) as nat) % pow2((nl + s) as nat) == ((v as nat) % pow2(nl as nat)) * pow2(s as nat),
{
    lemma2_to64();
    if s == 32 {
        assert((v as nat) % 1 == 0);
        assert(0nat % pow2(32) == 0);
    } else {
        lemma_shl_low(v, s as u32);
        let lo = ((v as nat) % pow2((32 - s) as nat)) as nat;
        lemma_mod_shifted(lo, nl as nat, s as nat, 0);
        lemma_mod_pow2_mod(v as nat, nl as nat, (32 - s) as nat);
        lemma_pow2_pos(s as nat);
        assert((v << (s as u32)) as nat == lo * pow2(s as nat));
        assert((lo * pow2(s as nat) + 0) % pow2((nl + s) as nat) == (lo % pow2(nl as nat)) * pow2(
            s as nat,
        ) + 0);
    }
}

/// Shifting left and or-ing a smaller value is adding.
proof fn lemma_or_shifted(a: u32, b: u32, k: u32)
    requires
        0 < k < 32,
        (b as nat) < pow2(k as nat),
        (a as nat) * pow2(k as nat) <= u32::MAX,
    ensures
        ((a << k) | b) as nat == (a as nat) * pow2(k as nat) + (b as nat),
{
    lemma_u32_pow2_no_overflow(k as nat);
    lemma_u32_shl_is_mul(a, k);
    lemma_u32_shl_is_mul(1u32, k);
    lemma_u32_shr_is_div(u32::MAX, k);
    lemma_u32_mul_pow2_le_max_iff_max_shr(a, k, u32::MAX);
    assert(b < (1u32 << k));
    assert(a <= (u32::MAX >> k));
    assert((b | (a << k)) == b + (a << k)) by (bit_vector)
        requires
            k < 32,
            b < (1u32 << k),
            a <= (u32::MAX >> k),
    ;
    assert(((a << k) | b) == (b | (a << k))) by (bit_vector);
}

/// The low `m` bits of `x`.
fn low_bits(x: u32, m: u32) -> (r: u32)
    requires
        m < 32,
    ensures
        r as nat == (x as nat) % pow2(m as nat),
{
    proof {
        lemma_u32_pow2_no_overflow(m as nat);
        lemma_u32_shl_is_mul(1u32, m);
        lemma_pow2_pos(m as nat);
        lemma_u32_low_bits_mask_is_mod(x, m as nat);
    }
    x & ((1u32 << m) - 1)
}

/// An accumulator holding `pending` bits has room for `m` more.
proof fn lemma_accu_room(v: u32, pending: nat, m: nat)
    requires
        (v as nat) < pow2(pending),
        pending + m <= 32,
    ensures
        (v as nat) * pow2(m) <= u32::MAX,
{
    lemma_pow2_adds(pending, m);
    lemma_pow2_pos(m);
    if pending + m < 32 {
        lemma_pow2_strictly_increases(pending + m, 32);
    }
    lemma2_to64();
    assert((v as nat) * pow2(m) <= (pow2(pending) - 1) * pow2(m)) by (nonlinear_arith)
        requires
            (v as nat) <= pow2(pending) - 1,
            pow2(m) > 0,
    ;
    assert((pow2(pending) - 1) * pow2(m) < pow2(pending) * pow2(m)) by (nonlinear_arith)
        requires
            pow2(m) > 0,
    ;
}

/// Appending `n` bits of value `x` to `len` bits of value `val`: the new value, its
/// last `pending + n` bits, and its first `k` bits.
proof fn lemma_put_value(val: nat, len: nat, pending: nat, n: nat, x: nat, k: nat)
    requires
        val < pow2(len),
        x < pow2(n),
        pending <= len,
        k <= len,
    ensures
        val * pow2(n) + x < pow2(len + n),
        (val * pow2(n) + x) % pow2(pending + n) == (val % pow2(pending)) * pow2(n) + x,
        (val * pow2(n) + x) / pow2((len + n - k) as nat) == val / pow2((len - k) as nat),
        (val % pow2(pending)) * pow2(n) + x < pow2(pending + n),
{
    let pn = pow2(n) as int;
    lemma_pow2_pos(n);
    lemma_pow2_pos(pending);
    lemma_pow2_pos((len - k) as nat);
    lemma_pow2_adds(len, n);
    lemma_pow2_adds(pending, n);
    lemma_pow2_adds((len - k) as nat, n);
    assert((len + n - k) as nat == (len - k) as nat + n);
    let v = val as int;
    assert(v * pn + x <= (pow2(len) - 1) * pn + (pn - 1)) by (nonlinear_arith)
        requires
            v <= pow2(len) - 1,
            0 <= x <= pn - 1,
            pn > 0,
    ;
    assert((pow2(len) - 1) * pn + (pn - 1) == pow2(len) * pn - 1) by (nonlinear_arith);
    let pp = pow2(pending) as int;
    let q = v / pp;
    let r = v % pp;
    lemma_fundamental_div_mod(v, pp);
    assert(r * pn + x < pp * pn) by (nonlinear_arith)
        requires
            0 <= r < pp,
            0 <= x < pn,
    ;
    assert(v * pn + x == q * (pp * pn) + (r * pn + x)) by (nonlinear_arith)
        requires
            v == pp * q + r,
    ;
    lemma_fundamental_div_mod_converse(v * pn + x, pp * pn, q, r * pn + x);
    let pk = pow2((len - k) as nat) as int;
    lemma_fundamental_div_mod_converse(v * pn + x, pn, v, x as int);
    lemma_div_denominator(v * pn + x, pn, pk);
    assert(pn * pk == pk * pn) by (nonlinear_arith);
}

/// The byte of the last `pending` bits of `val` that starts `m` bits above its end is
/// the next byte of `val` after its first bits.
proof fn lemma_byte_of_value(val: nat, pending: nat, m: nat)
    requires
        m + 8 <= pending,
    ensures
        ((val % pow2(pending)) / pow2(m)) % 256 == (val / pow2(m)) % 256,
        val / pow2(m) == (val / pow2(m + 8)) * 256 + (val / pow2(m)) % 256,
{
    lemma2_to64();
    lemma_pow2_pos(m);
    lemma_pow2_pos(pending);
    lemma_pow2_adds(m, 8);
    lemma_pow2_adds(m + 8, (pending - m - 8) as nat);
    let a = pow2(m) as int;
    let c = pow2((pending - m - 8) as nat) as int;
    lemma_pow2_pos((pending - m - 8) as nat);
    let v = val as int;
    let pp = pow2(pending) as int;
    assert(pp == a * 256 * c);
    lemma_fundamental_div_mod(v, pp);
    let q = v / pp;
    let r = v % pp;
    // val / a == q * 256 * c + r / a
    assert(v == a * (q * 256 * c) + r) by (nonlinear_arith)
        requires
            v == pp * q + r,
            pp == a * 256 * c,
    ;
    lemma_hoist_over_denominator(r, q * 256 * c, a as nat);
    assert(r + q * 256 * c * a == v) by (nonlinear_arith)
        requires
            v == a * (q * 256 * c) + r,
    ;
    assert((q * 256 * c + r / a) % 256 == (r / a) % 256) by {
        assert(q * 256 * c + r / a == 256 * (q * c) + r / a) by (nonlinear_arith);
        lemma_mod_multiples_vanish(q * c, r / a, 256);
    }
    lemma_div_denominator(v, a, 256);
    lemma_fundamental_div_mod(v / a, 256);
}

/// Writing byte `b` at index `k` extends the value of the first `8 k` bits by `b`.
proof fn lemma_bits_value_set_byte(d: Seq<u8>, k: int, b: u8)
    requires
        0 <= k < d.len(),
    ensures
        bits_value(d.update(k, b), 0, (8 * k + 8) as nat) == bits_value(d, 0, (8 * k) as nat)
            * 256 + b,
{
    let e = d.update(k, b);
    lemma_bits_value_split(e, 0, (8 * k) as nat, 8);
    lemma2_to64();
    lemma_bits_value_byte(e, k);
    lemma_bits_value_same(d, e, 0, (8 * k) as nat);
}

/// The value of bits depends only on those bits.
proof fn lemma_bits_value_same(d: Seq<u8>, e: Seq<u8>, p: int, n: nat)
    requires
        0 <= p,
        p + n <= 8 * d.len(),
        d.len() == e.len(),
        forall|j: int| 0 <= j < d.len() && j * 8 < p + n ==> #[trigger] d[j] == e[j],
    ensures
        bits_value(d, p, n) == bits_value(e, p, n),
    decreases n,
{
    if n > 0 {
        lemma_bits_value_same(d, e, p, (n - 1) as nat);
        let i = p + n - 1;
        assert(d[i / 8] == e[i / 8]) by {
            assert((i / 8) * 8 <= i);
        }
    }
}

/// Splitting the low `m + n` bits of `v` in their high `m` and low `n` bits.
proof fn lemma_split_low_bits(val: nat, v: nat, m: nat, n: nat)
    ensures
        (val * pow2(m) + (v / pow2(n)) % pow2(m)) * pow2(n) + v % pow2(n) == val * pow2(m + n) + v
            % pow2(m + n),
{
    lemma_pow2_pos(m);
    lemma_pow2_pos(n);
    lemma_pow2_adds(m, n);
    let pm = pow2(m) as int;
    let pn = pow2(n) as int;
    let vi = v as int;
    assert(pm * pn > 0) by (nonlinear_arith)
        requires
            pm > 0,
            pn > 0,
    ;
    lemma_fundamental_div_mod(vi, pn);
    lemma_fundamental_div_mod(vi / pn, pm);
    lemma_fundamental_div_mod(vi, pm * pn);
    lemma_div_denominator(vi, pn, pm);
    // v % (pm * pn) == ((v / pn) % pm) * pn + v % pn
    let a = (vi / pn) % pm;
    let b = vi % pn;
    let q = (vi / pn) / pm;
    assert(vi == q * (pm * pn) + (a * pn + b)) by (nonlinear_arith)
        requires
            vi == pn * (vi / pn) + b,
            vi / pn == pm * q + a,
    ;
    assert(0 <= a * pn + b < pm * pn) by (nonlinear_arith)
        requires
            0 <= a < pm,
            0 <= b < pn,
    ;
    lemma_fundamental_div_mod_converse(vi, pm * pn, q, a * pn + b);
    assert((val * pm + a) * pn + b == val * (pm * pn) + (a * pn + b)) by (nonlinear_arith);
}

/// A copy of `data` in a vector.
pub fn copy_bytes(data: &[u8]) -> (r: Vec<u8>)
    ensures
        r@ == data@,
{
    let mut r: Vec<u8> = Vec::with_capacity(data.len());
    let mut i: usize = 0;
    while i < data.len()
        invariant
            i <= data.len(),
            r@ == data@.subrange(0, i as int),
        decreases data.len() - i,
    {
        r.push(data[i]);
        i += 1;
    }
    r
}

/// A reader or writer of a bit stream over a byte buffer, most significant bit first.
#[derive(Clone)]
pub struct Bits {
    mode: Mode,
    data: Data,
    accu: Accu,
    error: bool,
    consumed: Ghost<nat>,
    wlen: Ghost<nat>,
    wval: Ghost<nat>,
}

impl Bits {
    /// The bytes of the stream.
    pub closed spec fn bytes(&self) -> Seq<u8> {
        self.data.buf@
    }

    /// The number of bits read so far.
    pub closed spec fn position(&self) -> nat {
        self.consumed@
    }

    /// The direction of the stream.
    pub closed spec fn mode(&self) -> Mode {
        self.mode
    }

    /// Whether a fixed field did not hold its expected value.
    pub closed spec fn error(&self) -> bool {
        self.error
    }

    closed spec fn data_wf(&self) -> bool {
        &&& self.data.nbytes == self.data.buf.len()
        &&& self.data.nleft <= self.data.nbytes
        &&& self.data.p == self.data.nbytes - self.data.nleft
        &&& 8 * self.data.nbytes + 64 <= usize::MAX
    }

    closed spec fn read_wf(&self) -> bool {
        let d = self.data.buf@;
        let pos = self.consumed@;
        let nl = self.accu.nleft;
        let loaded = pos + nl;
        let filled = 8 * (self.data.nbytes - self.data.nleft);
        &&& nl <= 32
        &&& loaded % 8 == 0
        &&& loaded >= filled
        &&& (self.data.nleft > 0 ==> loaded == filled && self.accu.nover == 0)
        &&& (self.accu.nover != usize::MAX ==> loaded == filled + self.accu.nover
            && self.accu.nover <= 32)
        &&& (self.accu.nover == usize::MAX ==> pos > 8 * self.data.nbytes && self.data.nleft
            == 0)
        &&& (self.accu.v as nat) % pow2(nl as nat) == bits_value(d, pos as int, nl as nat)
    }

    /// The number of bits written so far.
    pub closed spec fn written_len(&self) -> nat {
        self.wlen@
    }

    /// The bits written so far as a number, first bit most significant.
    pub closed spec fn written_value(&self) -> nat {
        self.wval@
    }

    /// The number of bytes stored in the buffer so far.
    pub closed spec fn stored(&self) -> nat {
        self.data.p as nat
    }

    closed spec fn write_wf(&self) -> bool {
        let len = self.wlen@;
        let val = self.wval@;
        let pending = 32 - self.accu.nleft;
        let flushed = len - pending;
        let p = self.data.p;
        &&& self.accu.nleft <= 32
        &&& self.accu.nover == 0
        &&& val < pow2(len)
        &&& pending <= len
        &&& flushed % 8 == 0
        &&& 8 * p <= flushed
        &&& 8 * p < flushed ==> self.data.nleft == 0
        &&& len <= 8 * self.data.nbytes ==> 8 * p == flushed
        &&& bits_value(self.data.buf@, 0, 8 * p as nat) == val / pow2((len - 8 * p) as nat)
        &&& self.accu.v as nat == val % pow2(pending as nat)
    }

    /// The invariant of a reader or a writer.
    pub closed spec fn wf(&self) -> bool {
        &&& self.data_wf()
        &&& self.mode == Mode::Read ==> self.read_wf()
        &&& self.mode == Mode::Write ==> self.write_wf()
    }

    /// A stream over `data`, positioned at its first bit.
    pub fn new(mode: Mode, data: &[u8]) -> (r: Self)
        requires
            8 * data.len() + 64 <= usize::MAX,
        ensures
            r.wf(),
            r.bytes() == data@,
            r.position() == 0,
            r.mode() == mode,
            !r.error(),
            r.written_len() == 0,
            r.written_value() == 0,
            r.stored() == 0,
    {
        let size = data.len();
        let r = Bits {
            mode,
            data: Data { buf: copy_bytes(data), p: 0, nbytes: size, nleft: size },
            accu: Accu {
                v: 0,
                nleft: if mode == Mode::Read {
                    0
                } else {
                    ACCU_BITS
                },
                nover: 0,
            },
            error: false,
            consumed: Ghost(0),
            wlen: Ghost(0),
            wval: Ghost(0),
        };
        proof {
            lemma2_to64();
        }
        r
    }

    /// Whether a fixed field read so far did not hold its expected value.
    pub fn has_error(&self) -> (r: bool)
        ensures
            r == self.error(),
    {
        self.error
    }

    /// The number of bits read, counting none past the end of the data; for a writer, the
    /// number of bits written while they fit the buffer.
    pub fn pos(&self) -> (r: usize)
        requires
            self.wf(),
        ensures
            self.mode() == Mode::Read ==> r == if self.position() < 8 * self.bytes().len() {
                self.position()
            } else {
                8 * self.bytes().len()
            },
            self.mode() == Mode::Write ==> r % 8 == self.written_len() % 8,
            self.mode() == Mode::Write && self.written_len() <= 8 * self.bytes().len() ==> r
                == self.written_len(),
    {
        let mut nbytes = self.data.nbytes - self.data.nleft;
        if self.mode == Mode::Write {
            nbytes += ACCU_BYTES;
        }
        8 * nbytes - if self.accu.nleft < self.accu.nover {
            0
        } else {
            self.accu.nleft - self.accu.nover
        }
    }

    /// Reads the next `n` bits as an unsigned number, first bit most significant.
    pub fn get_bits(&mut self, n: u32) -> (r: u32)
        requires
            old(self).wf(),
            old(self).mode() == Mode::Read,
            n < 32,
        ensures
            final(self).wf(),
            final(self).mode() == Mode::Read,
            final(self).bytes() == old(self).bytes(),
            final(self).position() == old(self).position() + n,
            final(self).error() == old(self).error(),
            r as nat == bits_value(old(self).bytes(), old(self).position() as int, n as nat),
    {
        if n == 0 {
            return 0;
        }
        if self.accu.nleft < n as usize {
            return self.get_bits_internal(n);
        }
        proof {
            lemma_take_high(
                self.accu.v,
                self.accu.nleft as nat,
                n as nat,
                self.data.buf@,
                self.consumed@ as int,
            );
        }
        self.accu.nleft -= n as usize;
        self.consumed = Ghost(self.consumed@ + n as nat);
        (self.accu.v >> (self.accu.nleft as u32)) & ((1u32 << n) - 1)
    }

    /// Skips the next `n` bits.
    pub fn advance(&mut self, n: u32)
        requires
            old(self).wf(),
            old(self).mode() == Mode::Read,
            n < 32,
        ensures
            final(self).wf(),
            final(self).mode() == Mode::Read,
            final(self).bytes() == old(self).bytes(),
            final(self).position() == old(self).position() + n,
            final(self).error() == old(self).error(),
    {
        self.get_bits(n);
    }

    /// Reads the next `n` bits and records an error when they do not form `v`.
    pub fn get_bits_fixed(&mut self, n: u32, v: u32)
        requires
            old(self).wf(),
            old(self).mode() == Mode::Read,
            n < 32,
        ensures
            final(self).wf(),
            final(self).mode() == Mode::Read,
            final(self).bytes() == old(self).bytes(),
            final(self).position() == old(self).position() + n,
            final(self).error() == (old(self).error() || bits_value(
                old(self).bytes(),
                old(self).position() as int,
                n as nat,
            ) != v),
    {
        if self.get_bits(n) != v {
            self.error = true;
        }
    }

    /// Stores the whole bytes of the accumulator, as many as the buffer has room for.
    fn flush_accu(&mut self)
        requires
            old(self).wf(),
            old(self).mode() == Mode::Write,
            (32 - old(self).accu.nleft) % 8 == 0,
        ensures
            final(self).wf(),
            final(self).mode() == Mode::Write,
            final(self).accu.nleft == 32,
            final(self).error() == old(self).error(),
            final(self).bytes().len() == old(self).bytes().len(),
            final(self).written_len() == old(self).written_len(),
            final(self).written_value() == old(self).written_value(),
    {
        let ghost len = self.wlen@;
        let ghost val = self.wval@;
        let ghost pending = (32 - self.accu.nleft) as nat;
        let ghost p0 = self.data.p as nat;
        let nbytes = ACCU_BYTES - (self.accu.nleft + 7) / 8;
        let nflush = if nbytes < self.data.nleft {
            nbytes
        } else {
            self.data.nleft
        };
        assert(nbytes * 8 == pending);
        let mut i: usize = 0;
        while i < nflush
            invariant
                self.data_wf(),
                self.mode == Mode::Write,
                self.wlen@ == len,
                self.wval@ == val,
                self.error == old(self).error,
                self.accu == old(self).accu,
                self.data.buf@.len() == old(self).data.buf@.len(),
                self.data.nbytes == old(self).data.nbytes,
                pending == 32 - self.accu.nleft,
                nbytes * 8 == pending,
                nflush <= nbytes,
                nflush <= old(self).data.nleft,
                i <= nflush,
                self.data.p == p0 + i,
                self.data.nleft == old(self).data.nleft - i,
                nflush > 0 ==> 8 * p0 + pending == len,
                val < pow2(len),
                self.accu.v as nat == val % pow2(pending),
                bits_value(self.data.buf@, 0, 8 * self.data.p as nat) == val / pow2(
                    (len - 8 * self.data.p) as nat,
                ),
            decreases nflush - i,
        {
            let shr = (32 - self.accu.nleft) - 8 - 8 * i;
            let ghost m = shr as nat;
            proof {
                lemma_u32_shr_is_div(self.accu.v, shr as u32);
                lemma_byte_of_value(val, pending, m);
            }
            let b = ((self.accu.v >> (shr as u32)) % 256) as u8;
            let ghost before = self.data.buf@;
            let k = self.data.p;
            self.data.buf.set(k, b);
            proof {
                lemma_bits_value_set_byte(before, k as int, b);
                assert(len - 8 * k == m + 8);
            }
            self.data.p = k + 1;
            self.data.nleft = self.data.nleft - 1;
            i += 1;
        }
        self.accu.v = 0;
        self.accu.nleft = self.accu.nleft + nbytes * 8;
        proof {
            lemma2_to64();
        }
    }

    /// Writes the `n` low bits of `v`, most significant first.
    pub fn put_bits(&mut self, v: u32, n: u32)
        requires
            old(self).wf(),
            old(self).mode() == Mode::Write,
            n < 32,
        ensures
            final(self).wf(),
            final(self).mode() == Mode::Write,
            final(self).error() == old(self).error(),
            final(self).bytes().len() == old(self).bytes().len(),
            final(self).written_len() == old(self).written_len() + n,
            final(self).written_value() == old(self).written_value() * pow2(n as nat) + (v as nat)
                % pow2(n as nat),
    {
        let ghost len0 = self.wlen@;
        let ghost val0 = self.wval@;
        if self.accu.nleft == 0 {
            self.flush_accu();
        }
        let m: u32 = if self.accu.nleft < n as usize {
            self.accu.nleft as u32
        } else {
            n
        };
        let n2 = n - m;
        if m > 0 {
            let x = low_bits(v >> n2, m);
            proof {
                lemma_pow2_pos(m as nat);
                lemma_pow2_pos((32 - self.accu.nleft) as nat);
                lemma_accu_room(self.accu.v, (32 - self.accu.nleft) as nat, m as nat);
                lemma_u32_shr_is_div(v, n2);
                lemma_put_value(self.wval@, self.wlen@, (32 - self.accu.nleft) as nat, m as nat, x as nat, 8 * self.data.p as nat);
                lemma_or_shifted(self.accu.v, x, m);
            }
            self.accu.nleft = self.accu.nleft - m as usize;
            self.accu.v = (self.accu.v << m) | x;
            self.wval = Ghost(self.wval@ * pow2(m as nat) + x as nat);
            self.wlen = Ghost(self.wlen@ + m as nat);
        }
        proof {
            lemma_u32_shr_is_div(v, n2);
            lemma_pow2_pos(n2 as nat);
            assert(self.wval@ == val0 * pow2(m as nat) + ((v as nat) / pow2(n2 as nat)) % pow2(
                m as nat,
            )) by {
                lemma2_to64();
                if m == 0 {
                    assert(((v as nat) / pow2(n2 as nat)) % 1 == 0);
                    assert(val0 * pow2(0) == val0) by (nonlinear_arith)
                        requires
                            pow2(0) == 1,
                    ;
                }
            }
        }
        if n2 == 0 {
            proof {
                lemma2_to64();
                assert((v as nat) / pow2(0) == v) by (nonlinear_arith)
                    requires
                        pow2(0) == 1,
                ;
            }
            return;
        }
        self.flush_accu();
        let y = low_bits(v, n2);
        proof {
            lemma_pow2_pos(n2 as nat);
            lemma2_to64();
            assert(self.wval@ % 1 == 0);
            lemma_accu_room(self.accu.v, 0, n2 as nat);
            lemma_put_value(self.wval@, self.wlen@, 0, n2 as nat, y as nat, 8 * self.data.p as nat);
            lemma2_to64();
            lemma_or_shifted(self.accu.v, y, n2);
        }
        self.accu.nleft = self.accu.nleft - n2 as usize;
        self.accu.v = (self.accu.v << n2) | y;
        self.wval = Ghost(self.wval@ * pow2(n2 as nat) + y as nat);
        self.wlen = Ghost(self.wlen@ + n2 as nat);
        proof {
            lemma_split_low_bits(val0, v as nat, m as nat, n2 as nat);
        }
    }

    /// Stores what the accumulator holds, once a whole number of bytes was written.
    pub fn flush(&mut self)
        requires
            old(self).wf(),
            old(self).mode() == Mode::Write,
            old(self).written_len() % 8 == 0,
        ensures
            final(self).wf(),
            final(self).mode() == Mode::Write,
            final(self).error() == old(self).error(),
            final(self).bytes().len() == old(self).bytes().len(),
            final(self).written_len() == old(self).written_len(),
            final(self).written_value() == old(self).written_value(),
            final(self).written_len() <= 8 * final(self).bytes().len() ==> {
                &&& 8 * final(self).stored() == final(self).written_len()
                &&& bits_value(final(self).bytes(), 0, final(self).written_len())
                    == final(self).written_value()
            },
    {
        self.flush_accu();
        proof {
            lemma2_to64();
        }
    }

    /// The bytes of the stream.
    pub fn data(&self) -> (r: &[u8])
        ensures
            r@ == self.bytes(),
    {
        self.data.buf.as_slice()
    }

    fn get_bits_internal(&mut self, n: u32) -> (r: u32)
        requires
            old(self).wf(),
            old(self).mode() == Mode::Read,
            0 < n < 32,
        ensures
            final(self).wf(),
            final(self).mode() == Mode::Read,
            final(self).bytes() == old(self).bytes(),
            final(self).position() == old(self).position() + n,
            final(self).error() == old(self).error(),
            r as nat == bits_value(old(self).bytes(), old(self).position() as int, n as nat),
    {
        let ghost d = self.data.buf@;
        let ghost p0 = self.consumed@;
        let mut n = if n < 32 {
            n
        } else {
            32
        };
        if self.accu.nleft == 0 {
            self.load_accu();
        }
        if self.accu.nleft >= n as usize {
            proof {
                lemma_take_high(self.accu.v, self.accu.nleft as nat, n as nat, d, p0 as int);
            }
            self.accu.nleft -= n as usize;
            self.consumed = Ghost(self.consumed@ + n as nat);
            self.accu.v >> (self.accu.nleft as u32) & ((1u32 << n) - 1)
        } else {
            let ghost n0 = n;
            let nl = self.accu.nleft;
            proof {
                lemma_take_high(self.accu.v, nl as nat, nl as nat, d, p0 as int);
                lemma_u32_pow2_no_overflow(nl as nat);
                lemma_u32_shl_is_mul(1u32, nl as u32);
                lemma_u32_low_bits_mask_is_mod(self.accu.v, nl as nat);
                lemma2_to64();
            }
            n -= nl as u32;
            let v = self.accu.v & ((1u32 << (nl as u32)) - 1);
            assert(v as nat == bits_value(d, p0 as int, nl as nat));
            self.accu.nleft = 0;
            self.consumed = Ghost(self.consumed@ + nl as nat);
            self.load_accu();
            proof {
                lemma_take_high(
                    self.accu.v,
                    self.accu.nleft as nat,
                    n as nat,
                    d,
                    (p0 + nl) as int,
                );
            }
            self.accu.nleft -= n as usize;
            self.consumed = Ghost(self.consumed@ + n as nat);
            let lo = self.accu.v >> (self.accu.nleft as u32) & ((1u32 << n) - 1);
            proof {
                lemma_bits_value_bound(d, p0 as int, nl as nat);
                lemma_bits_value_bound(d, p0 + nl, n as nat);
                lemma_bits_value_split(d, p0 as int, nl as nat, n as nat);
                lemma_pow2_adds(nl as nat, n as nat);
                lemma_bits_value_bound(d, p0 as int, n0 as nat);
                lemma_u32_pow2_no_overflow(n0 as nat);
                assert((v as nat) * pow2(n as nat) < pow2(n0 as nat)) by (nonlinear_arith)
                    requires
                        (v as nat) * pow2(n as nat) + (lo as nat) == bits_value(
                            d,
                            p0 as int,
                            n0 as nat,
                        ),
                        bits_value(d, p0 as int, n0 as nat) < pow2(n0 as nat),
                        lo >= 0,
                ;
                lemma_or_shifted(v, lo, n);
            }
            v << n | lo
        }
    }

    fn load_accu(&mut self)
        requires
            old(self).wf(),
            old(self).mode() == Mode::Read,
            old(self).accu.nleft == 0,
        ensures
            final(self).wf(),
            final(self).mode() == Mode::Read,
            final(self).bytes() == old(self).bytes(),
            final(self).position() == old(self).position(),
            final(self).error() == old(self).error(),
            final(self).accu.nleft == 32,
    {
        let mut nbytes = ACCU_BYTES;
        if nbytes > self.data.nleft {
            self.load_accu_slow();
        } else {
            let ghost d = self.data.buf@;
            let ghost pos = self.consumed@;
            proof {
                lemma2_to64();
            }
            assert(4usize << 3usize == 32usize) by (bit_vector);
            self.accu.nleft += nbytes << 3;
            self.data.nleft -= nbytes;
            while nbytes > 0
                invariant
                    nbytes <= 4,
                    self.data.buf@ == d,
                    self.consumed@ == pos,
                    self.mode == Mode::Read,
                    self.error == old(self).error,
                    self.accu.nleft == 32,
                    self.accu.nover == 0,
                    self.data.nbytes == d.len(),
                    self.data.p + nbytes == self.data.nbytes - self.data.nleft,
                    self.data.nleft + 4 <= self.data.nbytes,
                    8 * self.data.nbytes + 64 <= usize::MAX,
                    pos % 8 == 0,
                    pos == 8 * (self.data.nbytes - self.data.nleft - 4),
                    (self.accu.v as nat) % pow2((8 * (4 - nbytes)) as nat) == bits_value(
                        d,
                        pos as int,
                        (8 * (4 - nbytes)) as nat,
                    ),
                decreases nbytes,
            {
                let ghost k = (4 - nbytes) as nat;
                let b = self.data.buf[self.data.p];
                proof {
                    lemma_push_byte(self.accu.v, b, 8 * k, bits_value(d, pos as int, 8 * k));
                    lemma_bits_value_split(d, pos as int, 8 * k, 8);
                    lemma_bits_value_byte(d, (pos / 8 + k) as int);
                    assert(pos + 8 * k == 8 * (pos / 8 + k));
                    lemma2_to64();
                }
                self.accu.v = self.accu.v << 8 | (b as u32);
                self.data.p += 1;
                nbytes -= 1;
            }
        }
    }

    /// Refills the accumulator near the end of the data, byte by byte while it holds
    /// fewer than 25 bits and bytes are left: `k` bytes, the fewer of those left and
    /// `(32 - nleft) / 8`. When the bytes run out first, zero bits fill the accumulator up
    /// to the last whole byte it has room for, and count as overrun: they are added to the
    /// overrun count, which becomes `usize::MAX` when it already exceeded the bits held.
    fn load_accu_slow(&mut self)
        requires
            old(self).wf(),
            old(self).mode() == Mode::Read,
            old(self).accu.nleft < 25,
        ensures
            final(self).wf(),
            final(self).mode() == Mode::Read,
            final(self).bytes() == old(self).bytes(),
            final(self).position() == old(self).position(),
            final(self).error() == old(self).error(),
            25 <= final(self).accu.nleft <= 32,
            old(self).accu.nleft == 0 ==> final(self).accu.nleft == 32,
            (final(self).accu.v as nat) % pow2(final(self).accu.nleft as nat) == bits_value(
                final(self).bytes(),
                final(self).position() as int,
                final(self).accu.nleft as nat,
            ),
            ({
                let nl0 = old(self).accu.nleft as int;
                let r = old(self).data.nleft as int;
                let k = if r < (32 - nl0) / 8 {
                    r
                } else {
                    (32 - nl0) / 8
                };
                let nl1 = nl0 + 8 * k;
                let fill = (32 - nl1) / 8 * 8;
                &&& final(self).data.p == old(self).data.p + k
                &&& final(self).data.nleft == r - k
                &&& nl1 >= 25 ==> final(self).accu.nleft == nl1 && final(self).accu.nover == old(
                    self,
                ).accu.nover
                &&& nl1 < 25 ==> final(self).accu.nleft == nl1 + fill && final(self).accu.nover
                    == if nl1 >= old(self).accu.nover {
                    old(self).accu.nover + fill
                } else {
                    usize::MAX as int
                }
            }),
    {
        let ghost d = self.data.buf@;
        let ghost pos = self.consumed@;
        let ghost nl0 = self.accu.nleft as int;
        let ghost r = self.data.nleft as int;
        let ghost p0 = self.data.p as int;
        let ghost nover0 = self.accu.nover;
        proof {
            lemma2_to64();
        }
        while self.accu.nleft < ACCU_BITS - 7 && self.data.nleft > 0
            invariant
                self.data.buf@ == d,
                self.consumed@ == pos,
                self.mode == Mode::Read,
                self.error == old(self).error,
                self.data_wf(),
                self.accu.nover == nover0,
                self.data.nleft <= r,
                self.data.p == p0 + (r - self.data.nleft),
                self.accu.nleft == nl0 + 8 * (r - self.data.nleft),
                self.accu.nleft <= 32,
                0 <= nl0 < 25,
                (pos + self.accu.nleft) % 8 == 0,
                self.data.nleft > 0 ==> pos + self.accu.nleft == 8 * (self.data.nbytes
                    - self.data.nleft) && self.accu.nover == 0,
                self.accu.nover != usize::MAX ==> pos + self.accu.nleft == 8 * (
                self.data.nbytes - self.data.nleft) + self.accu.nover && self.accu.nover <= 32,
                self.accu.nover == usize::MAX ==> pos > 8 * self.data.nbytes && self.data.nleft
                    == 0,
                (self.accu.v as nat) % pow2(self.accu.nleft as nat) == bits_value(
                    d,
                    pos as int,
                    self.accu.nleft as nat,
                ),
            decreases self.data.nleft,
        {
            let ghost nl = self.accu.nleft as nat;
            let fresh0 = self.data.buf[self.data.p];
            proof {
                lemma_push_byte(self.accu.v, fresh0, nl, bits_value(d, pos as int, nl));
                lemma_bits_value_split(d, pos as int, nl, 8);
                lemma_bits_value_byte(d, self.data.p as int);
                lemma2_to64();
                assert(pos + nl == 8 * self.data.p);
                assert(bits_value(d, pos as int, nl + 8) == bits_value(d, pos as int, nl) * 256
                    + fresh0);
            }
            self.data.p += 1;
            self.data.nleft -= 1;
            self.accu.v = self.accu.v << 8 | (fresh0 as u32);
            self.accu.nleft += 8;
        }
        assert(self.accu.nleft - 8 < 25 || self.data.nleft == r);
        if self.accu.nleft < ACCU_BITS - 7 {
            let ghost nl = self.accu.nleft as nat;
            let cur = self.accu.nleft;
            let rem = ACCU_BITS - cur;
            let nover = (rem >> 3) << 3;
            assert(nover == rem - rem % 8 && rem - rem % 8 >= 8) by (bit_vector)
                requires
                    nover == (rem >> 3usize) << 3usize,
                    8 <= rem <= 32,
            ;
            if self.accu.nleft >= self.accu.nover {
                self.accu.nover += nover;
            } else {
                self.accu.nover = usize::MAX;
            }
            proof {
                lemma_zero_fill(self.accu.v, cur, nover);
                lemma_bits_value_split(d, pos as int, nl, nover as nat);
                lemma_bits_value_past_end(d, (pos + nl) as int, nover as nat);
            }
            self.accu.v = if nover < 32 {
                self.accu.v << (nover as u32)
            } else {
                0
            };
            self.accu.nleft += nover;
        }
    }
}

} // verus!
