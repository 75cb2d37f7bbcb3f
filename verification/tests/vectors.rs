use bv::{BitVec, BitVecMut, BitVecPush};

fn bools(bits: &[u8]) -> Vec<bool> {
    bits.iter().map(|&b| b != 0).collect()
}

#[test]
fn two_blocks_of_eight_bits() {
    let mut v = vec![0b01001000u8, 0b11100011u8];
    assert!(v.get_bit(3));
    assert!(v.get_bit(8));
    assert_eq!(v.get_bits(4, 8), 0b00110100u8);

    v.set_bits(4, 8, 0b11110000);
    assert!(!v.get_bit(4));
    assert!(!v.get_bit(5));
    assert!(!v.get_bit(6));
    assert!(!v.get_bit(7));
    assert!(v.get_bit(8));
    assert!(v.get_bit(9));
    assert!(v.get_bit(10));
    assert!(v.get_bit(11));
    assert_eq!(v, vec![0b00001000u8, 0b11101111u8]);
}

#[test]
fn slice_of_blocks_lengths() {
    let v = vec![0u8; 3];
    assert_eq!(v.bit_len(), 24);
    assert_eq!(v.bit_offset(), 0);
    assert_eq!(v.block_len(), 3);
    let w = vec![0u64; 5];
    assert_eq!(w.bit_len(), 320);
    assert_eq!(w.block_len(), 5);
    let e: Vec<u32> = Vec::new();
    assert_eq!(e.bit_len(), 0);
    assert_eq!(e.block_len(), 0);
}

#[test]
fn slice_of_blocks_get_and_set_block() {
    let mut v = vec![1u16, 2, 3];
    assert_eq!(v.get_block(0), 1);
    assert_eq!(v.get_block(2), 3);
    v.set_block(1, 0xBEEF);
    assert_eq!(v, vec![1u16, 0xBEEF, 3]);
}

#[test]
fn set_bit_then_get_bit_round_trip() {
    let mut v = vec![0b10101010u8, 0b01010101u8];
    for position in 0..16u64 {
        for &value in &[true, false] {
            let before = v.clone();
            v.set_bit(position, value);
            assert_eq!(v.get_bit(position), value);
            for other in 0..16u64 {
                if other != position {
                    assert_eq!(v.get_bit(other), before.get_bit(other));
                }
            }
        }
    }
}

#[test]
fn set_bit_from_block_variants_agree_with_set_bit() {
    let mut v = vec![0u32, 0];
    v.set_bit_in_block(33, true);
    assert_eq!(v, vec![0u32, 2]);
    assert!(v.get_bit_from_block(33));
    assert!(!v.get_bit_from_block(32));
    v.set_bit_in_block(33, false);
    assert_eq!(v, vec![0u32, 0]);
}

#[test]
fn set_bits_then_get_bits_round_trip_within_a_block() {
    let mut v = vec![0xffu8, 0xff];
    v.set_bits(1, 5, 0b01001);
    assert_eq!(v.get_bits(1, 5), 0b01001);
    assert_eq!(v, vec![0b11010011u8, 0xff]);
}

#[test]
fn set_bits_then_get_bits_round_trip_across_blocks() {
    let mut v = vec![0u32, 0];
    v.set_bits(28, 8, 0xAB);
    assert_eq!(v.get_bits(28, 8), 0xAB);
    assert_eq!(v, vec![0xB000_0000u32, 0x0000_000A]);

    let mut w = vec![0u64, 0, 0];
    w.set_bits(100, 64, 0x0123_4567_89AB_CDEF);
    assert_eq!(w.get_bits(100, 64), 0x0123_4567_89AB_CDEF);
    assert_eq!(w[0], 0);
    assert_eq!(w[1], 0x0123_4567_89AB_CDEFu64 << 36);
    assert_eq!(w[2], 0x0123_4567_89AB_CDEFu64 >> 28);

    let mut x = vec![0u128, 0];
    x.set_bits(127, 2, 0b11);
    assert_eq!(x.get_bits(127, 2), 0b11);
    assert_eq!(x, vec![1u128 << 127, 1]);
}

#[test]
fn set_bits_ignores_bits_of_the_value_above_the_count() {
    let mut v = vec![0u16, 0];
    v.set_bits(12, 6, 0xFFFF);
    assert_eq!(v, vec![0xF000u16, 0x0003]);
    assert_eq!(v.get_bits(12, 6), 0x3F);
}

#[test]
fn full_width_field_at_a_block_boundary() {
    let mut v = vec![0x11u8, 0x22, 0x33];
    assert_eq!(v.get_bits(8, 8), 0x22);
    v.set_bits(8, 8, 0xEE);
    assert_eq!(v, vec![0x11u8, 0xEE, 0x33]);
    assert_eq!(v.get_bits(16, 8), 0x33);
    assert_eq!(v.get_bits(4, 8), 0xE1);
}

#[test]
fn empty_field_reads_zero_and_writes_nothing() {
    let mut v = vec![0xA5u8, 0x5A];
    assert_eq!(v.get_bits(3, 0), 0);
    assert_eq!(v.get_bits(16, 0), 0);
    v.set_bits(3, 0, 0xff);
    v.set_bits(16, 0, 0xff);
    assert_eq!(v, vec![0xA5u8, 0x5A]);
}

#[test]
fn writing_a_field_keeps_the_bits_outside_it() {
    let mut v = vec![0xffu8, 0xff, 0xff];
    v.set_bits(6, 7, 0);
    assert_eq!(v, vec![0b00111111u8, 0b11100000, 0xff]);
    let mut w = vec![0u8, 0, 0];
    w.set_bits(6, 7, 0x7f);
    assert_eq!(w, vec![0b11000000u8, 0b00011111, 0]);
}

#[test]
fn two_block_read_agrees_with_reading_bit_by_bit() {
    let v = vec![0x9Cu8, 0x3A, 0xF1, 0x07];
    for start in 0..=24u64 {
        for count in 0..=8usize {
            let field = v.get_bits(start, count);
            let mut expected = 0u8;
            for i in 0..count {
                if v.get_bit(start + i as u64) {
                    expected |= 1 << i;
                }
            }
            assert_eq!(field, expected);
        }
    }
}

#[test]
fn two_block_write_agrees_with_writing_bit_by_bit() {
    let initial = vec![0x9Cu8, 0x3A, 0xF1, 0x07];
    for start in 0..=24u64 {
        for count in 0..=8usize {
            for &value in &[0x00u8, 0xff, 0xA5, 0x5A] {
                let mut fast = initial.clone();
                fast.set_bits(start, count, value);
                let mut slow = initial.clone();
                for i in 0..count {
                    slow.set_bit(start + i as u64, value & (1 << i) != 0);
                }
                assert_eq!(fast, slow);
            }
        }
    }
}

#[test]
fn vec_of_bool_get_and_set_bit() {
    let mut v = bools(&[1, 0, 1, 1, 0, 0, 0, 1, 1]);
    assert_eq!(v.bit_len(), 9);
    assert_eq!(v.bit_offset(), 0);
    assert!(v.get_bit(0));
    assert!(!v.get_bit(1));
    assert!(v.get_bit(8));
    v.set_bit(1, true);
    assert!(v.get_bit(1));
    v.set_bit(8, false);
    assert!(!v.get_bit(8));
    assert_eq!(v, bools(&[1, 1, 1, 1, 0, 0, 0, 1, 0]));
}

#[test]
fn vec_of_bool_block_len_rounds_up() {
    assert_eq!(bools(&[]).block_len(), 0);
    assert_eq!(bools(&[1]).block_len(), 1);
    assert_eq!(bools(&[1; 8]).block_len(), 1);
    assert_eq!(bools(&[1; 9]).block_len(), 2);
    assert_eq!(bools(&[1; 16]).block_len(), 2);
}

#[test]
fn vec_of_bool_get_block_assembles_bits_and_leaves_the_rest_zero() {
    let v = bools(&[1, 0, 1, 1, 0, 0, 0, 1, 1]);
    assert_eq!(v.get_block(0), 0b10001101);
    assert_eq!(v.get_block(1), 0b00000001);
    let all = bools(&[1; 11]);
    assert_eq!(all.get_block(0), 0xff);
    assert_eq!(all.get_block(1), 0b00000111);
}

#[test]
fn vec_of_bool_get_bits_spans_blocks() {
    let v = bools(&[1, 0, 1, 1, 0, 0, 0, 1, 1, 0, 1]);
    assert_eq!(v.get_bits(2, 5), 0b00011);
    assert_eq!(v.get_bits(5, 6), 0b101100);
    assert_eq!(v.get_bits(3, 8), 0b10110001);
}

#[test]
fn vec_of_bool_set_block_touches_only_bits_of_the_vector() {
    let mut v = bools(&[1, 0, 1, 1, 0, 0, 0, 1, 1]);
    v.set_block(1, 0xff);
    assert_eq!(v, bools(&[1, 0, 1, 1, 0, 0, 0, 1, 1]));
    v.set_block(1, 0xfe);
    assert_eq!(v, bools(&[1, 0, 1, 1, 0, 0, 0, 1, 0]));
    v.set_block(0, 0b00000010);
    assert_eq!(v, bools(&[0, 1, 0, 0, 0, 0, 0, 0, 0]));
    assert_eq!(v.len(), 9);
}

#[test]
fn vec_of_bool_set_bits_spans_blocks() {
    let mut v = bools(&[0; 12]);
    v.set_bits(6, 5, 0b10111);
    assert_eq!(v, bools(&[0, 0, 0, 0, 0, 0, 1, 1, 1, 0, 1, 0]));
    assert_eq!(v.get_bits(6, 5), 0b10111);
}

#[test]
fn push_bit_then_pop_bit_is_the_inverse() {
    let mut v = bools(&[1, 0, 1]);
    for &value in &[true, false] {
        let before = v.clone();
        v.push_bit(value);
        assert_eq!(v.bit_len(), before.bit_len() + 1);
        assert_eq!(v.pop_bit(), Some(value));
        assert_eq!(v, before);
    }
}

#[test]
fn pop_bit_on_an_empty_vector_is_none() {
    let mut v: Vec<bool> = Vec::new();
    assert_eq!(v.pop_bit(), None);
    assert_eq!(v.bit_len(), 0);
    v.push_bit(true);
    assert_eq!(v.pop_bit(), Some(true));
    assert_eq!(v.pop_bit(), None);
}

#[test]
fn align_block_pads_to_the_next_boundary() {
    for len in 0..=17usize {
        for &value in &[true, false] {
            let mut v = vec![!value; len];
            v.align_block(value);
            let pushed = (8 - len % 8) % 8;
            assert_eq!(v.len(), len + pushed);
            assert_eq!(v.bit_len() % 8, 0);
            for i in 0..len {
                assert_eq!(v[i], !value);
            }
            for i in len..v.len() {
                assert_eq!(v[i], value);
            }
        }
    }
}

#[test]
fn align_block_pushes_seven_bits_after_nine() {
    let mut v = bools(&[1, 0, 1, 1, 0, 0, 0, 1, 0]);
    v.align_block(true);
    assert_eq!(v, bools(&[1, 0, 1, 1, 0, 0, 0, 1, 0, 1, 1, 1, 1, 1, 1, 1]));
    v.align_block(false);
    assert_eq!(v.len(), 16);
}

#[test]
fn push_block_aligns_with_zeros_and_appends_low_bit_first() {
    let mut v = bools(&[1, 1, 1, 1, 1, 1, 1, 1, 1]);
    v.push_block(0b10110001);
    assert_eq!(
        v,
        bools(&[1, 1, 1, 1, 1, 1, 1, 1, 1, 0, 0, 0, 0, 0, 0, 0, 1, 0, 0, 0, 1, 1, 0, 1])
    );
    assert_eq!(v.get_block(2), 0b10110001);

    let mut w: Vec<bool> = Vec::new();
    w.push_block(0x0f);
    assert_eq!(w, bools(&[1, 1, 1, 1, 0, 0, 0, 0]));
}
