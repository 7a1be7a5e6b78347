use lib::bits::{Bits, Mode};

#[test]
fn get_bits_reads_most_significant_first() {
    let data = [0b1010_0101u8, 0xff, 0x00, 0x81];
    let mut bits = Bits::new(Mode::Read, &data);
    assert_eq!(bits.get_bits(1), 1);
    assert_eq!(bits.get_bits(3), 0b010);
    assert_eq!(bits.get_bits(8), 0b0101_1111);
    assert_eq!(bits.get_bits(12), 0b1111_0000_0000);
    assert_eq!(bits.get_bits(8), 0x81);
    assert_eq!(bits.pos(), 32);
    assert!(!bits.has_error());
}

#[test]
fn get_bits_of_zero_bits_is_zero() {
    let data = [0xffu8];
    let mut bits = Bits::new(Mode::Read, &data);
    assert_eq!(bits.get_bits(0), 0);
    assert_eq!(bits.pos(), 0);
}

#[test]
fn get_bits_across_many_words() {
    let data: Vec<u8> = (0u8..16).collect();
    let mut bits = Bits::new(Mode::Read, &data);
    for expected in 0u32..16 {
        assert_eq!(bits.get_bits(8), expected);
    }
    assert_eq!(bits.pos(), 128);
}

#[test]
fn reading_past_the_end_gives_zeros() {
    let data = [0xabu8, 0xcd];
    let mut bits = Bits::new(Mode::Read, &data);
    assert_eq!(bits.get_bits(16), 0xabcd);
    assert_eq!(bits.get_bits(16), 0);
    assert_eq!(bits.pos(), 16);
}

#[test]
fn reading_split_reads_like_reading_whole() {
    let data = [0x3cu8, 0xa5, 0x5a, 0xc3];
    let mut whole = Bits::new(Mode::Read, &data);
    let mut split = Bits::new(Mode::Read, &data);
    whole.advance(3);
    split.advance(3);
    let w = whole.get_bits(20);
    let a = split.get_bits(7);
    let b = split.get_bits(13);
    assert_eq!(w, (a << 13) | b);
    assert_eq!(whole.pos(), split.pos());
}

#[test]
fn advance_skips_bits() {
    let data = [0x12u8, 0x34, 0x56];
    let mut bits = Bits::new(Mode::Read, &data);
    bits.advance(12);
    assert_eq!(bits.get_bits(12), 0x456);
}

#[test]
fn get_bits_fixed_flags_a_mismatch() {
    let data = [0xf0u8, 0x0f];
    let mut bits = Bits::new(Mode::Read, &data);
    bits.get_bits_fixed(4, 0xf);
    assert!(!bits.has_error());
    bits.get_bits_fixed(4, 0x1);
    assert!(bits.has_error());
    bits.get_bits_fixed(8, 0x0f);
    assert!(bits.has_error());
    assert_eq!(bits.pos(), 16);
}

#[test]
fn put_bits_writes_most_significant_first() {
    let mut w = Bits::new(Mode::Write, &[0u8; 4]);
    w.put_bits(0x9c, 8);
    w.put_bits(0b10, 2);
    w.put_bits(0b11, 2);
    w.put_bits(0b0110, 4);
    // Only the low bits of the value are written.
    w.put_bits(0xffff_ff01, 8);
    assert_eq!(w.pos(), 24);
    w.flush();
    assert_eq!(&w.data()[0..3], &[0x9c, 0xb6, 0x01]);
    assert_eq!(w.data()[3], 0);
}

#[test]
fn written_bits_read_back() {
    let fields: [(u32, u32); 7] = [(5, 3), (0, 1), (0x1234, 16), (1, 1), (0x7fff_ffff, 31), (3, 2), (0xa, 4)];
    let mut w = Bits::new(Mode::Write, &[0u8; 8]);
    for &(v, n) in fields.iter() {
        w.put_bits(v, n);
    }
    assert_eq!(w.pos(), 58);
    w.put_bits(0, 6);
    w.flush();
    let mut r = Bits::new(Mode::Read, w.data());
    for &(v, n) in fields.iter() {
        assert_eq!(r.get_bits(n), v);
    }
    assert!(!r.has_error());
}

#[test]
fn writing_past_the_end_keeps_the_buffer_size() {
    let mut w = Bits::new(Mode::Write, &[0u8; 2]);
    w.put_bits(0xabcd, 16);
    w.put_bits(0xef, 8);
    w.flush();
    assert_eq!(w.data(), &[0xab, 0xcd]);
}
