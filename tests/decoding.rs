use buff::endian::{decode_be, decode_le};
use buff::{Buffer, SliceBuffer};

#[test]
fn be_u16_reads_high_byte_first() {
    let data = [0x12u8, 0x34];
    let mut b = SliceBuffer::new(&data);
    assert_eq!(b.get_be_u16(), 0x1234);
    assert_eq!(b.position(), 2);
    assert_eq!(b.remaining(), 0);
}

#[test]
fn le_u16_reads_low_byte_first() {
    let data = [0x12u8, 0x34];
    let mut b = SliceBuffer::new(&data);
    assert_eq!(b.get_le_u16(), 0x3412);
    assert_eq!(b.position(), 2);
}

#[test]
fn i8_is_twos_complement() {
    let data = [0xFFu8];
    let mut b = SliceBuffer::new(&data);
    assert_eq!(b.get_i8(), -1);
    assert_eq!(b.position(), 1);
}

#[test]
fn i8_extremes() {
    let data = [0x7Fu8, 0x80, 0x00];
    let mut b = SliceBuffer::new(&data);
    assert_eq!(b.get_i8(), 127);
    assert_eq!(b.get_i8(), -128);
    assert_eq!(b.get_i8(), 0);
}

#[test]
fn f32_bits_in_both_orders() {
    let data = [0x40u8, 0x49, 0x0F, 0xDB];
    let mut b = SliceBuffer::new(&data);
    let be = f32::from_bits(b.get_be_u32());
    assert_eq!(be, 3.1415927f32);
    let reversed = [0xDBu8, 0x0F, 0x49, 0x40];
    let mut r = SliceBuffer::new(&reversed);
    let le = f32::from_bits(r.get_le_u32());
    assert_eq!(le.to_bits(), be.to_bits());
}

#[test]
fn u64_in_both_orders() {
    let data = [0u8, 0, 0, 0, 0, 0, 0, 1];
    let mut b = SliceBuffer::new(&data);
    assert_eq!(b.get_be_u64(), 1);
    let mut b = SliceBuffer::new(&data);
    assert_eq!(b.get_le_u64(), 0x0100000000000000);
}

#[test]
fn byte_then_copy_consumes_all() {
    let data = [0x01u8, 0x02, 0x03];
    let mut b = SliceBuffer::new(&data);
    assert_eq!(b.get_u8(), 1);
    let mut dst = [0u8; 2];
    b.copy_to_slice(&mut dst);
    assert_eq!(dst, [0x02, 0x03]);
    assert_eq!(b.remaining(), 0);
    assert_eq!(b.position(), 3);
}

#[test]
fn signed_16_bit_reads() {
    let data = [0xFFu8, 0xFE, 0x80, 0x00, 0x00, 0x80];
    let mut b = SliceBuffer::new(&data);
    assert_eq!(b.get_be_i16(), -2);
    assert_eq!(b.get_be_i16(), i16::MIN);
    assert_eq!(b.get_le_i16(), i16::MIN);
    let mut b = SliceBuffer::new(&data);
    assert_eq!(b.get_le_i16(), -257);
}

#[test]
fn u32_reads() {
    let data = [0xDEu8, 0xAD, 0xBE, 0xEF];
    let mut b = SliceBuffer::new(&data);
    assert_eq!(b.get_be_u32(), 0xDEADBEEF);
    let mut b = SliceBuffer::new(&data);
    assert_eq!(b.get_le_u32(), 0xEFBEADDE);
}

#[test]
fn u64_all_ones_and_mixed() {
    let data = [0xFFu8; 8];
    let mut b = SliceBuffer::new(&data);
    assert_eq!(b.get_be_u64(), u64::MAX);
    let data = [1u8, 2, 3, 4, 5, 6, 7, 8];
    let mut b = SliceBuffer::new(&data);
    assert_eq!(b.get_le_u64(), 0x0807060504030201);
}

#[test]
fn reads_add_up_their_widths() {
    let data: Vec<u8> = (0u8..20).collect();
    let mut b = SliceBuffer::new(&data);
    let length = b.length();
    b.get_u8();
    b.get_be_u16();
    b.get_le_u32();
    b.get_be_u64();
    b.get_i8();
    assert_eq!(b.position(), 1 + 2 + 4 + 8 + 1);
    assert_eq!(b.length(), length);
    assert_eq!(b.remaining() + b.position(), b.length());
}

#[test]
fn remaining_plus_position_is_length() {
    let data = [9u8; 5];
    let mut b = SliceBuffer::new(&data);
    assert_eq!(b.remaining() + b.position(), 5);
    b.forward(3);
    assert_eq!(b.remaining() + b.position(), 5);
    b.backward(2);
    assert_eq!(b.remaining() + b.position(), 5);
    assert_eq!(b.position(), 1);
}

#[test]
fn big_endian_is_reversed_little_endian() {
    let data = [0x11u8, 0x22, 0x33, 0x44, 0x55, 0x66, 0x77, 0x88];
    let mut rev = data;
    rev.reverse();
    assert_eq!(SliceBuffer::new(&data).get_be_u64(), SliceBuffer::new(&rev).get_le_u64());
    assert_eq!(SliceBuffer::new(&data[..4]).get_be_u32(), SliceBuffer::new(&rev[4..]).get_le_u32());
    assert_eq!(SliceBuffer::new(&data[..2]).get_be_u16(), SliceBuffer::new(&rev[6..]).get_le_u16());
    assert_eq!(decode_be(&data), decode_le(&rev));
}

#[test]
fn encoded_values_decode_back() {
    for v in [0u16, 1, 0x1234, u16::MAX] {
        assert_eq!(SliceBuffer::new(&v.to_be_bytes()).get_be_u16(), v);
        assert_eq!(SliceBuffer::new(&v.to_le_bytes()).get_le_u16(), v);
    }
    for v in [i16::MIN, -1, 0, 1, i16::MAX] {
        assert_eq!(SliceBuffer::new(&v.to_be_bytes()).get_be_i16(), v);
        assert_eq!(SliceBuffer::new(&v.to_le_bytes()).get_le_i16(), v);
    }
    for v in [0u32, 0xCAFEBABE, u32::MAX] {
        assert_eq!(SliceBuffer::new(&v.to_be_bytes()).get_be_u32(), v);
        assert_eq!(SliceBuffer::new(&v.to_le_bytes()).get_le_u32(), v);
    }
    for v in [0u64, 0x0123456789ABCDEF, u64::MAX] {
        assert_eq!(SliceBuffer::new(&v.to_be_bytes()).get_be_u64(), v);
        assert_eq!(SliceBuffer::new(&v.to_le_bytes()).get_le_u64(), v);
    }
    for v in [-128i8, -1, 0, 127] {
        assert_eq!(SliceBuffer::new(&v.to_be_bytes()).get_i8(), v);
    }
}

#[test]
fn float_bit_patterns_survive_decoding() {
    let nan = f64::from_bits(0x7FF4_0000_0000_0001);
    for v in [0.0f64, -0.0, 1.5, f64::INFINITY, nan] {
        let got = f64::from_bits(SliceBuffer::new(&v.to_be_bytes()).get_be_u64());
        assert_eq!(got.to_bits(), v.to_bits());
        let got = f64::from_bits(SliceBuffer::new(&v.to_le_bytes()).get_le_u64());
        assert_eq!(got.to_bits(), v.to_bits());
    }
    let v = -2.5f32;
    let got = f32::from_bits(SliceBuffer::new(&v.to_be_bytes()).get_be_u32());
    assert_eq!(got, v);
}

#[test]
fn forward_then_backward_restores_position() {
    let data = [0u8; 10];
    let mut b = SliceBuffer::new(&data);
    b.forward(2);
    b.forward(5);
    b.backward(5);
    assert_eq!(b.position(), 2);
}

#[test]
fn unaligned_read_matches_aligned_copy() {
    let data = [0xAAu8, 0x01, 0x02, 0x03, 0x04, 0x05, 0x06, 0x07, 0x08];
    let mut b = SliceBuffer::new(&data);
    b.forward(1);
    let unaligned = b.get_be_u64();
    let copy: Vec<u8> = data[1..].to_vec();
    let aligned = SliceBuffer::new(&copy).get_be_u64();
    assert_eq!(unaligned, aligned);
    assert_eq!(unaligned, 0x0102030405060708);
}

#[test]
fn read_of_exactly_remaining_empties_buffer() {
    let data = [0x01u8, 0x02, 0x03, 0x04];
    let mut b = SliceBuffer::new(&data);
    b.forward(2);
    assert_eq!(b.get_le_u16(), 0x0403);
    assert_eq!(b.remaining(), 0);
}

#[test]
fn empty_copy_keeps_position() {
    let data = [0x01u8, 0x02];
    let mut b = SliceBuffer::new(&data);
    b.forward(1);
    let mut dst: [u8; 0] = [];
    b.copy_to_slice(&mut dst);
    assert_eq!(b.position(), 1);
    let empty: [u8; 0] = [];
    let mut e = SliceBuffer::new(&empty);
    e.copy_to_slice(&mut dst);
    assert_eq!(e.position(), 0);
    assert_eq!(e.remaining(), 0);
}

#[test]
fn window_starts_at_cursor() {
    let data = [5u8, 6, 7];
    let mut b = SliceBuffer::new(&data);
    b.forward(1);
    assert_eq!(b.bytes(), &[6u8, 7]);
    assert_eq!(b.length(), 3);
}

#[test]
fn slice_decoders() {
    assert_eq!(decode_be(&[]), 0);
    assert_eq!(decode_le(&[]), 0);
    assert_eq!(decode_be(&[0x01, 0x02, 0x03]), 0x010203);
    assert_eq!(decode_le(&[0x01, 0x02, 0x03]), 0x030201);
}
