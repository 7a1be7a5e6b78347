use vstd::prelude::*;

use crate::bits::{stream_bit, lemma_stream_bit_le1};
use crate::decoder::{ChannelMode, Error, SbcHeader};

verus! {

/// One step of the CRC-8 of polynomial `x^8 + x^4 + x^3 + x^2 + 1` over one input bit.
#[verifier::opaque]
pub open spec fn crc8_bit(crc: u8, bit: u8) -> u8 {
    let shifted = (crc << 1u8) as u8;
    if ((crc >> 7u8) ^ bit) & 1u8 == 1u8 {
        shifted ^ 0x1du8
    } else {
        shifted
    }
}

/// The CRC-8 register after the `n` stream bits of `d` that start at bit `start`, from `init`.
pub open spec fn crc8_bits(d: Seq<u8>, start: int, n: nat, init: u8) -> u8
    decreases n,
{
    if n == 0 {
        init
    } else {
        crc8_bit(crc8_bits(d, start, (n - 1) as nat, init), stream_bit(d, start + n - 1) as u8)
    }
}

/// Number of bits after the header that the frame CRC covers, as the decoder counts them:
/// the scale factors and, in joint stereo, the joint-subband flags.
pub open spec fn spec_crc_nbit(h: SbcHeader) -> int {
    h.spec_channels() * h.subbands * 4 + if h.mode == ChannelMode::JointStereo {
        h.subbands as int
    } else {
        0int
    }
}

/// Number of bits the CRC loop processes out of `nbit`: whole bytes, then half a byte when
/// bits are left over.
pub open spec fn spec_crc_covered(nbit: int) -> int {
    8 * (nbit / 8) + if nbit % 8 != 0 {
        4int
    } else {
        0int
    }
}

/// The CRC of a frame: header bytes 1 and 2, then the covered bits after the 4-byte header,
/// starting from `0x0f`.
pub open spec fn spec_frame_crc(d: Seq<u8>, nbit: int) -> u8 {
    crc8_bits(d, 32, spec_crc_covered(nbit) as nat, crc8_bits(d, 8, 16, 0x0fu8))
}

/// The CRC register depends only on the stream bits it runs over.
proof fn lemma_crc8_bits_same(d: Seq<u8>, e: Seq<u8>, start: int, n: nat, init: u8)
    requires
        forall|j: int| start <= j < start + n ==> #[trigger] stream_bit(d, j) == stream_bit(e, j),
    ensures
        crc8_bits(d, start, n, init) == crc8_bits(e, start, n, init),
    decreases n,
{
    if n > 0 {
        lemma_crc8_bits_same(d, e, start, (n - 1) as nat, init);
        assert(stream_bit(d, start + n - 1) == stream_bit(e, start + n - 1));
    }
}

/// The frame CRC covers neither the sync word (byte 0) nor the CRC field (byte 3): a
/// frame that differs from another only there has the same CRC.
pub proof fn lemma_frame_crc_skips_sync_and_crc(d: Seq<u8>, i: int, v: u8, nbit: int)
    requires
        i == 0 || i == 3,
        0 <= i < d.len(),
    ensures
        spec_frame_crc(d.update(i, v), nbit) == spec_frame_crc(d, nbit),
{
    let e = d.update(i, v);
    assert forall|j: int| 8 <= j < 24 || 32 <= j implies #[trigger] stream_bit(e, j) == stream_bit(d, j) by {
        if 0 <= j < 8 * d.len() {
            assert(j / 8 != i);
        }
    }
    lemma_crc8_bits_same(e, d, 8, 16, 0x0fu8);
    lemma_crc8_bits_same(e, d, 32, spec_crc_covered(nbit) as nat, crc8_bits(d, 8, 16, 0x0fu8));
}

/// Eight CRC steps over the bits of byte `b`, most significant first.
pub open spec fn crc8_byte(c: u8, b: u8) -> u8 {
    crc8_bit(
        crc8_bit(
            crc8_bit(
                crc8_bit(
                    crc8_bit(
                        crc8_bit(
                            crc8_bit(crc8_bit(c, (b >> 7u8) & 1u8), (b >> 6u8) & 1u8),
                            (b >> 5u8) & 1u8,
                        ),
                        (b >> 4u8) & 1u8,
                    ),
                    (b >> 3u8) & 1u8,
                ),
                (b >> 2u8) & 1u8,
            ),
            (b >> 1u8) & 1u8,
        ),
        b & 1u8,
    )
}

/// Four CRC steps over the high half of byte `b`.
pub open spec fn crc8_high_nibble(c: u8, b: u8) -> u8 {
    crc8_bit(
        crc8_bit(
            crc8_bit(crc8_bit(c, (b >> 7u8) & 1u8), (b >> 6u8) & 1u8),
            (b >> 5u8) & 1u8,
        ),
        (b >> 4u8) & 1u8,
    )
}

/// The lookup table of eight CRC steps over a zero byte.
pub const CRC_TABLE: [u8; 256] = [
    0x00, 0x1d, 0x3a, 0x27, 0x74, 0x69, 0x4e, 0x53, 0xe8, 0xf5, 0xd2, 0xcf, 0x9c, 0x81, 0xa6, 0xbb,
    0xcd, 0xd0, 0xf7, 0xea, 0xb9, 0xa4, 0x83, 0x9e, 0x25, 0x38, 0x1f, 0x02, 0x51, 0x4c, 0x6b, 0x76,
    0x87, 0x9a, 0xbd, 0xa0, 0xf3, 0xee, 0xc9, 0xd4, 0x6f, 0x72, 0x55, 0x48, 0x1b, 0x06, 0x21, 0x3c,
    0x4a, 0x57, 0x70, 0x6d, 0x3e, 0x23, 0x04, 0x19, 0xa2, 0xbf, 0x98, 0x85, 0xd6, 0xcb, 0xec, 0xf1,
    0x13, 0x0e, 0x29, 0x34, 0x67, 0x7a, 0x5d, 0x40, 0xfb, 0xe6, 0xc1, 0xdc, 0x8f, 0x92, 0xb5, 0xa8,
    0xde, 0xc3, 0xe4, 0xf9, 0xaa, 0xb7, 0x90, 0x8d, 0x36, 0x2b, 0x0c, 0x11, 0x42, 0x5f, 0x78, 0x65,
    0x94, 0x89, 0xae, 0xb3, 0xe0, 0xfd, 0xda, 0xc7, 0x7c, 0x61, 0x46, 0x5b, 0x08, 0x15, 0x32, 0x2f,
    0x59, 0x44, 0x63, 0x7e, 0x2d, 0x30, 0x17, 0x0a, 0xb1, 0xac, 0x8b, 0x96, 0xc5, 0xd8, 0xff, 0xe2,
    0x26, 0x3b, 0x1c, 0x01, 0x52, 0x4f, 0x68, 0x75, 0xce, 0xd3, 0xf4, 0xe9, 0xba, 0xa7, 0x80, 0x9d,
    0xeb, 0xf6, 0xd1, 0xcc, 0x9f, 0x82, 0xa5, 0xb8, 0x03, 0x1e, 0x39, 0x24, 0x77, 0x6a, 0x4d, 0x50,
    0xa1, 0xbc, 0x9b, 0x86, 0xd5, 0xc8, 0xef, 0xf2, 0x49, 0x54, 0x73, 0x6e, 0x3d, 0x20, 0x07, 0x1a,
    0x6c, 0x71, 0x56, 0x4b, 0x18, 0x05, 0x22, 0x3f, 0x84, 0x99, 0xbe, 0xa3, 0xf0, 0xed, 0xca, 0xd7,
    0x35, 0x28, 0x0f, 0x12, 0x41, 0x5c, 0x7b, 0x66, 0xdd, 0xc0, 0xe7, 0xfa, 0xa9, 0xb4, 0x93, 0x8e,
    0xf8, 0xe5, 0xc2, 0xdf, 0x8c, 0x91, 0xb6, 0xab, 0x10, 0x0d, 0x2a, 0x37, 0x64, 0x79, 0x5e, 0x43,
    0xb2, 0xaf, 0x88, 0x95, 0xc6, 0xdb, 0xfc, 0xe1, 0x5a, 0x47, 0x60, 0x7d, 0x2e, 0x33, 0x14, 0x09,
    0x7f, 0x62, 0x45, 0x58, 0x0b, 0x16, 0x31, 0x2c, 0x97, 0x8a, 0xad, 0xb0, 0xe3, 0xfe, 0xd9, 0xc4,
];

/// The table entry for `x`, by halving the range of `x`.
#[verifier::opaque]
pub open spec fn crc_table_value(x: u8) -> u8 {
    if x < 128 { if x < 64 { if x < 32 { if x < 16 { if x < 8 { if x < 4 { if x < 2 { if x < 1 { 0x00u8 } else { 0x1du8 } } else { if x < 3 { 0x3au8 } else { 0x27u8 } } } else { if x < 6 { if x < 5 { 0x74u8 } else { 0x69u8 } } else { if x < 7 { 0x4eu8 } else { 0x53u8 } } } } else { if x < 12 { if x < 10 { if x < 9 { 0xe8u8 } else { 0xf5u8 } } else { if x < 11 { 0xd2u8 } else { 0xcfu8 } } } else { if x < 14 { if x < 13 { 0x9cu8 } else { 0x81u8 } } else { if x < 15 { 0xa6u8 } else { 0xbbu8 } } } } } else { if x < 24 { if x < 20 { if x < 18 { if x < 17 { 0xcdu8 } else { 0xd0u8 } } else { if x < 19 { 0xf7u8 } else { 0xeau8 } } } else { if x < 22 { if x < 21 { 0xb9u8 } else { 0xa4u8 } } else { if x < 23 { 0x83u8 } else { 0x9eu8 } } } } else { if x < 28 { if x < 26 { if x < 25 { 0x25u8 } else { 0x38u8 } } else { if x < 27 { 0x1fu8 } else { 0x02u8 } } } else { if x < 30 { if x < 29 { 0x51u8 } else { 0x4cu8 } } else { if x < 31 { 0x6bu8 } else { 0x76u8 } } } } } } else { if x < 48 { if x < 40 { if x < 36 { if x < 34 { if x < 33 { 0x87u8 } else { 0x9au8 } } else { if x < 35 { 0xbdu8 } else { 0xa0u8 } } } else { if x < 38 { if x < 37 { 0xf3u8 } else { 0xeeu8 } } else { if x < 39 { 0xc9u8 } else { 0xd4u8 } } } } else { if x < 44 { if x < 42 { if x < 41 { 0x6fu8 } else { 0x72u8 } } else { if x < 43 { 0x55u8 } else { 0x48u8 } } } else { if x < 46 { if x < 45 { 0x1bu8 } else { 0x06u8 } } else { if x < 47 { 0x21u8 } else { 0x3cu8 } } } } } else { if x < 56 { if x < 52 { if x < 50 { if x < 49 { 0x4au8 } else { 0x57u8 } } else { if x < 51 { 0x70u8 } else { 0x6du8 } } } else { if x < 54 { if x < 53 { 0x3eu8 } else { 0x23u8 } } else { if x < 55 { 0x04u8 } else { 0x19u8 } } } } else { if x < 60 { if x < 58 { if x < 57 { 0xa2u8 } else { 0xbfu8 } } else { if x < 59 { 0x98u8 } else { 0x85u8 } } } else { if x < 62 { if x < 61 { 0xd6u8 } else { 0xcbu8 } } else { if x < 63 { 0xecu8 } else { 0xf1u8 } } } } } } } else { if x < 96 { if x < 80 { if x < 72 { if x < 68 { if x < 66 { if x < 65 { 0x13u8 } else { 0x0eu8 } } else { if x < 67 { 0x29u8 } else { 0x34u8 } } } else { if x < 70 { if x < 69 { 0x67u8 } else { 0x7au8 } } else { if x < 71 { 0x5du8 } else { 0x40u8 } } } } else { if x < 76 { if x < 74 { if x < 73 { 0xfbu8 } else { 0xe6u8 } } else { if x < 75 { 0xc1u8 } else { 0xdcu8 } } } else { if x < 78 { if x < 77 { 0x8fu8 } else { 0x92u8 } } else { if x < 79 { 0xb5u8 } else { 0xa8u8 } } } } } else { if x < 88 { if x < 84 { if x < 82 { if x < 81 { 0xdeu8 } else { 0xc3u8 } } else { if x < 83 { 0xe4u8 } else { 0xf9u8 } } } else { if x < 86 { if x < 85 { 0xaau8 } else { 0xb7u8 } } else { if x < 87 { 0x90u8 } else { 0x8du8 } } } } else { if x < 92 { if x < 90 { if x < 89 { 0x36u8 } else { 0x2bu8 } } else { if x < 91 { 0x0cu8 } else { 0x11u8 } } } else { if x < 94 { if x < 93 { 0x42u8 } else { 0x5fu8 } } else { if x < 95 { 0x78u8 } else { 0x65u8 } } } } } } else { if x < 112 { if x < 104 { if x < 100 { if x < 98 { if x < 97 { 0x94u8 } else { 0x89u8 } } else { if x < 99 { 0xaeu8 } else { 0xb3u8 } } } else { if x < 102 { if x < 101 { 0xe0u8 } else { 0xfdu8 } } else { if x < 103 { 0xdau8 } else { 0xc7u8 } } } } else { if x < 108 { if x < 106 { if x < 105 { 0x7cu8 } else { 0x61u8 } } else { if x < 107 { 0x46u8 } else { 0x5bu8 } } } else { if x < 110 { if x < 109 { 0x08u8 } else { 0x15u8 } } else { if x < 111 { 0x32u8 } else { 0x2fu8 } } } } } else { if x < 120 { if x < 116 { if x < 114 { if x < 113 { 0x59u8 } else { 0x44u8 } } else { if x < 115 { 0x63u8 } else { 0x7eu8 } } } else { if x < 118 { if x < 117 { 0x2du8 } else { 0x30u8 } } else { if x < 119 { 0x17u8 } else { 0x0au8 } } } } else { if x < 124 { if x < 122 { if x < 121 { 0xb1u8 } else { 0xacu8 } } else { if x < 123 { 0x8bu8 } else { 0x96u8 } } } else { if x < 126 { if x < 125 { 0xc5u8 } else { 0xd8u8 } } else { if x < 127 { 0xffu8 } else { 0xe2u8 } } } } } } } } else { if x < 192 { if x < 160 { if x < 144 { if x < 136 { if x < 132 { if x < 130 { if x < 129 { 0x26u8 } else { 0x3bu8 } } else { if x < 131 { 0x1cu8 } else { 0x01u8 } } } else { if x < 134 { if x < 133 { 0x52u8 } else { 0x4fu8 } } else { if x < 135 { 0x68u8 } else { 0x75u8 } } } } else { if x < 140 { if x < 138 { if x < 137 { 0xceu8 } else { 0xd3u8 } } else { if x < 139 { 0xf4u8 } else { 0xe9u8 } } } else { if x < 142 { if x < 141 { 0xbau8 } else { 0xa7u8 } } else { if x < 143 { 0x80u8 } else { 0x9du8 } } } } } else { if x < 152 { if x < 148 { if x < 146 { if x < 145 { 0xebu8 } else { 0xf6u8 } } else { if x < 147 { 0xd1u8 } else { 0xccu8 } } } else { if x < 150 { if x < 149 { 0x9fu8 } else { 0x82u8 } } else { if x < 151 { 0xa5u8 } else { 0xb8u8 } } } } else { if x < 156 { if x < 154 { if x < 153 { 0x03u8 } else { 0x1eu8 } } else { if x < 155 { 0x39u8 } else { 0x24u8 } } } else { if x < 158 { if x < 157 { 0x77u8 } else { 0x6au8 } } else { if x < 159 { 0x4du8 } else { 0x50u8 } } } } } } else { if x < 176 { if x < 168 { if x < 164 { if x < 162 { if x < 161 { 0xa1u8 } else { 0xbcu8 } } else { if x < 163 { 0x9bu8 } else { 0x86u8 } } } else { if x < 166 { if x < 165 { 0xd5u8 } else { 0xc8u8 } } else { if x < 167 { 0xefu8 } else { 0xf2u8 } } } } else { if x < 172 { if x < 170 { if x < 169 { 0x49u8 } else { 0x54u8 } } else { if x < 171 { 0x73u8 } else { 0x6eu8 } } } else { if x < 174 { if x < 173 { 0x3du8 } else { 0x20u8 } } else { if x < 175 { 0x07u8 } else { 0x1au8 } } } } } else { if x < 184 { if x < 180 { if x < 178 { if x < 177 { 0x6cu8 } else { 0x71u8 } } else { if x < 179 { 0x56u8 } else { 0x4bu8 } } } else { if x < 182 { if x < 181 { 0x18u8 } else { 0x05u8 } } else { if x < 183 { 0x22u8 } else { 0x3fu8 } } } } else { if x < 188 { if x < 186 { if x < 185 { 0x84u8 } else { 0x99u8 } } else { if x < 187 { 0xbeu8 } else { 0xa3u8 } } } else { if x < 190 { if x < 189 { 0xf0u8 } else { 0xedu8 } } else { if x < 191 { 0xcau8 } else { 0xd7u8 } } } } } } } else { if x < 224 { if x < 208 { if x < 200 { if x < 196 { if x < 194 { if x < 193 { 0x35u8 } else { 0x28u8 } } else { if x < 195 { 0x0fu8 } else { 0x12u8 } } } else { if x < 198 { if x < 197 { 0x41u8 } else { 0x5cu8 } } else { if x < 199 { 0x7bu8 } else { 0x66u8 } } } } else { if x < 204 { if x < 202 { if x < 201 { 0xddu8 } else { 0xc0u8 } } else { if x < 203 { 0xe7u8 } else { 0xfau8 } } } else { if x < 206 { if x < 205 { 0xa9u8 } else { 0xb4u8 } } else { if x < 207 { 0x93u8 } else { 0x8eu8 } } } } } else { if x < 216 { if x < 212 { if x < 210 { if x < 209 { 0xf8u8 } else { 0xe5u8 } } else { if x < 211 { 0xc2u8 } else { 0xdfu8 } } } else { if x < 214 { if x < 213 { 0x8cu8 } else { 0x91u8 } } else { if x < 215 { 0xb6u8 } else { 0xabu8 } } } } else { if x < 220 { if x < 218 { if x < 217 { 0x10u8 } else { 0x0du8 } } else { if x < 219 { 0x2au8 } else { 0x37u8 } } } else { if x < 222 { if x < 221 { 0x64u8 } else { 0x79u8 } } else { if x < 223 { 0x5eu8 } else { 0x43u8 } } } } } } else { if x < 240 { if x < 232 { if x < 228 { if x < 226 { if x < 225 { 0xb2u8 } else { 0xafu8 } } else { if x < 227 { 0x88u8 } else { 0x95u8 } } } else { if x < 230 { if x < 229 { 0xc6u8 } else { 0xdbu8 } } else { if x < 231 { 0xfcu8 } else { 0xe1u8 } } } } else { if x < 236 { if x < 234 { if x < 233 { 0x5au8 } else { 0x47u8 } } else { if x < 235 { 0x60u8 } else { 0x7du8 } } } else { if x < 238 { if x < 237 { 0x2eu8 } else { 0x33u8 } } else { if x < 239 { 0x14u8 } else { 0x09u8 } } } } } else { if x < 248 { if x < 244 { if x < 242 { if x < 241 { 0x7fu8 } else { 0x62u8 } } else { if x < 243 { 0x45u8 } else { 0x58u8 } } } else { if x < 246 { if x < 245 { 0x0bu8 } else { 0x16u8 } } else { if x < 247 { 0x31u8 } else { 0x2cu8 } } } } else { if x < 252 { if x < 250 { if x < 249 { 0x97u8 } else { 0x8au8 } } else { if x < 251 { 0xadu8 } else { 0xb0u8 } } } else { if x < 254 { if x < 253 { 0xe3u8 } else { 0xfeu8 } } else { if x < 255 { 0xd9u8 } else { 0xc4u8 } } } } } } } }
}

/// Every table entry is eight CRC steps over a zero byte.
proof fn lemma_crc_table_value(x: u8)
    ensures
        crc_table_value(x) == crc8_byte(x, 0),
{
    reveal(crc8_bit);
    reveal(crc_table_value);
    assert(crc_table_value(x) == crc8_byte(x, 0)) by (bit_vector);
}

proof fn lemma_crc_table_index(i: u8)
    ensures
        CRC_TABLE[i as int] == crc8_byte(i, 0),
{
    reveal(crc_table_value);
    lemma_crc_table_value(i);
}

/// The CRC is linear: the data byte can be folded into the register.
proof fn lemma_crc_byte_linear(c: u8, b: u8)
    ensures
        crc8_byte(c, b) == crc8_byte(c ^ b, 0),
{
    reveal(crc8_bit);
    assert(crc8_byte(c, b) == crc8_byte(c ^ b, 0)) by (bit_vector);
}

/// Four steps over the high half of a byte, by the byte table.
proof fn lemma_crc_nibble(c: u8, b: u8)
    ensures
        crc8_high_nibble(c, b) == ((c << 4u8) as u8) ^ crc8_byte((c >> 4u8) ^ (b >> 4u8), 0),
{
    reveal(crc8_bit);
    assert(crc8_high_nibble(c, b) == ((c << 4u8) as u8) ^ crc8_byte((c >> 4u8) ^ (b >> 4u8), 0))
        by (bit_vector);
}

/// Eight stream bits at a byte boundary are the bits of that byte.
proof fn lemma_crc_bits_byte(d: Seq<u8>, s: int, m: nat, init: u8)
    requires
        (s + m) % 8 == 0,
        0 <= (s + m) / 8 < d.len(),
    ensures
        crc8_bits(d, s, m + 8, init) == crc8_byte(crc8_bits(d, s, m, init), d[(s + m) / 8]),
{
    let k = (s + m) / 8;
    let x = d[k];
    reveal_with_fuel(crc8_bits, 9);
    assert forall|j: int| 0 <= j < 8 implies #[trigger] stream_bit(d, s + m + j) as u8 == (x >> ((7
        - j) as u8)) & 1u8 by {
        vstd::arithmetic::div_mod::lemma_fundamental_div_mod_converse(s + m + j, 8, k, j);
    }
    assert(stream_bit(d, s + m + 0) as u8 == (x >> 7u8) & 1u8);
    assert(stream_bit(d, s + m + 1) as u8 == (x >> 6u8) & 1u8);
    assert(stream_bit(d, s + m + 2) as u8 == (x >> 5u8) & 1u8);
    assert(stream_bit(d, s + m + 3) as u8 == (x >> 4u8) & 1u8);
    assert(stream_bit(d, s + m + 4) as u8 == (x >> 3u8) & 1u8);
    assert(stream_bit(d, s + m + 5) as u8 == (x >> 2u8) & 1u8);
    assert(stream_bit(d, s + m + 6) as u8 == (x >> 1u8) & 1u8);
    assert(stream_bit(d, s + m + 7) as u8 == (x >> 0u8) & 1u8);
    assert((x >> 0u8) & 1u8 == x & 1u8) by (bit_vector);
}

/// Four stream bits at a byte boundary are the high half of that byte.
proof fn lemma_crc_bits_nibble(d: Seq<u8>, s: int, m: nat, init: u8)
    requires
        (s + m) % 8 == 0,
        0 <= (s + m) / 8 < d.len(),
    ensures
        crc8_bits(d, s, m + 4, init) == crc8_high_nibble(crc8_bits(d, s, m, init), d[(s + m) / 8]),
{
    let k = (s + m) / 8;
    let x = d[k];
    reveal_with_fuel(crc8_bits, 5);
    assert forall|j: int| 0 <= j < 4 implies #[trigger] stream_bit(d, s + m + j) as u8 == (x >> ((7
        - j) as u8)) & 1u8 by {
        vstd::arithmetic::div_mod::lemma_fundamental_div_mod_converse(s + m + j, 8, k, j);
    }
    assert(stream_bit(d, s + m + 0) as u8 == (x >> 7u8) & 1u8);
    assert(stream_bit(d, s + m + 1) as u8 == (x >> 6u8) & 1u8);
    assert(stream_bit(d, s + m + 2) as u8 == (x >> 5u8) & 1u8);
    assert(stream_bit(d, s + m + 3) as u8 == (x >> 4u8) & 1u8);
}

/// The CRC of a frame: header bytes 1 and 2, then the scale factors and joint-subband flags.
pub fn compute_crc(header: &SbcHeader, data: &[u8]) -> (r: Result<u8, Error>)
    requires
        header.subbands <= 0x0fff_ffff,
    ensures
        ({
            let nbit = spec_crc_nbit(*header);
            let needed = (32 + nbit + 7) / 8;
            &&& data.len() < needed ==> r == Err::<u8, Error>(
                Error::NotEnoughData { expected: needed as usize, actual: data.len() },
            )
            &&& data.len() >= needed ==> r == Ok::<u8, Error>(spec_frame_crc(data@, nbit))
        }),
{
    let nch = header.channels();
    let nsb = header.subbands;
    assert(nch * nsb * 4 <= 8 * nsb) by (nonlinear_arith)
        requires
            nch <= 2,
    ;
    let nbit = nch * nsb * 4 + if header.mode == ChannelMode::JointStereo {
        nsb
    } else {
        0
    };
    let padded = (4 * 8) + nbit + 7;
    proof {
        vstd::bits::lemma_u32_shr_is_div(padded, 3);
        vstd::arithmetic::power2::lemma2_to64();
    }
    let needed = (padded >> 3) as usize;
    if data.len() < needed {
        return Err(Error::NotEnoughData { expected: needed, actual: data.len() });
    }
    let ghost d = data@;
    let mut crc: u8 = 0xf;
    proof {
        lemma_crc_bits_byte(d, 8, 0, 0x0f);
        lemma_crc_bits_byte(d, 8, 8, 0x0f);
        lemma_crc_byte_linear(0x0f, d[1]);
        lemma_crc_table_index(0x0fu8 ^ d[1]);
    }
    crc = CRC_TABLE[(crc ^ data[1]) as usize];
    proof {
        lemma_crc_byte_linear(crc, d[2]);
        lemma_crc_table_index(crc ^ d[2]);
    }
    crc = CRC_TABLE[(crc ^ data[2]) as usize];
    let ghost crc0 = crc;
    assert(crc0 == crc8_bits(d, 8, 16, 0x0fu8));
    let mut i: usize = 4;
    let end = (4 + (nbit / 8)) as usize;
    while i < end
        invariant
            4 <= i <= end,
            end == 4 + nbit / 8,
            end <= data.len(),
            d == data@,
            crc == crc8_bits(d, 32, (8 * (i - 4)) as nat, crc0),
        decreases end - i,
    {
        proof {
            lemma_crc_bits_byte(d, 32, (8 * (i - 4)) as nat, crc0);
            lemma_crc_byte_linear(crc, d[i as int]);
            lemma_crc_table_index(crc ^ d[i as int]);
        }
        crc = CRC_TABLE[(crc ^ data[i]) as usize];
        i += 1;
    }
    if nbit % 8 != 0 {
        proof {
            lemma_crc_bits_nibble(d, 32, (8 * (i - 4)) as nat, crc0);
            lemma_crc_nibble(crc, d[i as int]);
            lemma_crc_table_index((crc >> 4u8) ^ (d[i as int] >> 4u8));
        }
        crc = (crc << 4) ^ CRC_TABLE[((crc >> 4) ^ (data[i] >> 4)) as usize];
    }
    Ok(crc)
}

} // verus!
