use bv::{BitSliceable, BitVec, BitVecMut};

#[test]
fn offset_vector_reads_physical_bit_three() {
    let blocks = [0b11111000u8];
    let view = (&blocks[..]).slice(3..8);
    assert_eq!(view.bit_offset(), 3);
    assert_eq!(view.bit_len(), 5);
    assert_eq!(view.block_len(), 1);
    assert!(view.get_bit(0));
    assert!(view.get_bit(4));

    let single = [0b00001000u8];
    let view = (&single[..]).slice(3..8);
    assert!(view.get_bit(0));
    assert!(!view.get_bit(1));
    assert!(!view.get_bit(4));
}

#[test]
fn view_get_block_masks_out_bits_outside_the_view() {
    let blocks = [0xffu8];
    let view = (&blocks[..]).slice(3..8);
    assert_eq!(view.get_block(0), 0b11111000);
    let view = (&blocks[..]).slice(2..5);
    assert_eq!(view.get_block(0), 0b00011100);
    let two = [0xffu8, 0xff];
    let view = (&two[..]).slice(3..13);
    assert_eq!(view.block_len(), 2);
    assert_eq!(view.get_block(0), 0b11111000);
    assert_eq!(view.get_block(1), 0b00011111);
}

#[test]
fn view_reads_bits_and_fields_through_its_offset() {
    let blocks = [0b10101000u8, 0b00000110u8];
    let view = (&blocks[..]).slice(3..13);
    assert_eq!(view.bit_len(), 10);
    assert_eq!(view.bit_offset(), 3);
    let expected = [true, false, true, false, true, false, true, true, false, false];
    for (i, &bit) in expected.iter().enumerate() {
        assert_eq!(view.get_bit(i as u64), bit);
        assert_eq!(view.get_bit_from_block(i as u64), bit);
    }
    assert_eq!(view.get_bits(2, 8), 0b00110101);
    assert_eq!(view.get_bits(0, 5), 0b10101);
    assert_eq!(view.get_bits(5, 5), 0b00110);
}

#[test]
fn view_of_a_view() {
    let blocks = [0b10101000u8, 0b00000110u8];
    let view = (&blocks[..]).slice(3..13);
    let inner = view.slice(2..7);
    assert_eq!(inner.bit_len(), 5);
    assert_eq!(inner.bit_offset(), 5);
    assert_eq!(inner.get_bits(0, 5), 0b10101);

    let second = view.slice(6..10);
    assert_eq!(second.bit_len(), 4);
    assert_eq!(second.bit_offset(), 1);
    assert_eq!(second.block_len(), 1);
    assert_eq!(second.get_bits(0, 4), 0b0011);
}

#[test]
fn empty_and_whole_views() {
    let blocks = [0x12u16, 0x34];
    let whole = (&blocks[..]).slice(0..32);
    assert_eq!(whole.bit_len(), 32);
    assert_eq!(whole.bit_offset(), 0);
    assert_eq!(whole.block_len(), 2);
    assert_eq!(whole.get_bits(0, 16), 0x12);
    assert_eq!(whole.get_bits(16, 16), 0x34);
    let empty = (&blocks[..]).slice(32..32);
    assert_eq!(empty.bit_len(), 0);
    assert_eq!(empty.block_len(), 0);
    let empty = (&blocks[..]).slice(5..5);
    assert_eq!(empty.bit_len(), 0);
    assert_eq!(empty.bit_offset(), 5);
}

#[test]
fn set_block_keeps_low_bits_of_the_first_block_and_high_bits_of_the_last() {
    let mut blocks = [0b00000101u8, 0b10100000u8];
    {
        let mut view = (&mut blocks[..]).slice(3..13);
        assert_eq!(view.bit_len(), 10);
        assert_eq!(view.bit_offset(), 3);
        assert_eq!(view.block_len(), 2);
        view.set_block(0, 0xff);
    }
    assert_eq!(blocks, [0b11111101u8, 0b10100000u8]);
    {
        let mut view = (&mut blocks[..]).slice(3..13);
        view.set_block(1, 0xff);
    }
    assert_eq!(blocks, [0b11111101u8, 0b10111111u8]);
    {
        let mut view = (&mut blocks[..]).slice(3..13);
        view.set_block(0, 0);
        view.set_block(1, 0);
    }
    assert_eq!(blocks, [0b00000101u8, 0b10100000u8]);
}

#[test]
fn mutable_view_get_block_assembles_the_bits_of_the_view() {
    let mut blocks = [0xffu8, 0xff];
    let view = (&mut blocks[..]).slice(3..13);
    assert_eq!(view.get_block(0), 0b11111000);
    assert_eq!(view.get_block(1), 0b00011111);
    let mut mixed = [0b10101000u8, 0b00000110u8];
    let view = (&mut mixed[..]).slice(3..13);
    assert_eq!(view.get_block(0), 0b10101000);
    assert_eq!(view.get_block(1), 0b00000110);
    assert_eq!(view.get_bits(2, 8), 0b00110101);
}

#[test]
fn set_block_writes_the_bits_of_the_value_at_their_places() {
    let mut blocks = [0u8, 0];
    {
        let mut view = (&mut blocks[..]).slice(3..13);
        view.set_block(0, 0b01010101);
        view.set_block(1, 0b11110011);
    }
    assert_eq!(blocks, [0b01010000u8, 0b00010011u8]);
}

#[test]
fn set_bits_through_a_view_keeps_the_bits_outside_the_field() {
    let mut blocks = [0b00000101u8, 0b10100000u8];
    {
        let mut view = (&mut blocks[..]).slice(3..13);
        view.set_bits(2, 8, 0xff);
        assert_eq!(view.get_bits(2, 8), 0xff);
        assert_eq!(view.get_bits(0, 2), 0);
    }
    assert_eq!(blocks, [0b11100101u8, 0b10111111u8]);
    {
        let mut view = (&mut blocks[..]).slice(3..13);
        view.set_bits(0, 5, 0b01010);
        assert_eq!(view.get_bits(0, 5), 0b01010);
    }
    assert_eq!(blocks, [0b01010101u8, 0b10111111u8]);
}

#[test]
fn set_bit_through_a_view_writes_one_physical_bit() {
    let mut blocks = [0u8, 0];
    {
        let mut view = (&mut blocks[..]).slice(3..13);
        view.set_bit(0, true);
        view.set_bit(9, true);
        assert!(view.get_bit(0));
        assert!(!view.get_bit(1));
        assert!(view.get_bit(9));
    }
    assert_eq!(blocks, [0b00001000u8, 0b00010000u8]);
    {
        let mut view = (&mut blocks[..]).slice(3..13);
        view.set_bit_in_block(5, true);
        view.set_bit_in_block(0, false);
    }
    assert_eq!(blocks, [0b00000000u8, 0b00010001u8]);
}

#[test]
fn view_field_round_trip_for_every_range() {
    for start in 0..=10u64 {
        for count in 0..=(10 - start).min(8) as usize {
            let mut blocks = [0b00000101u8, 0b10100000u8];
            let value = 0b10110101u8;
            let mask = if count == 8 { 0xff } else { (1u8 << count) - 1 };
            {
                let mut view = (&mut blocks[..]).slice(3..13);
                view.set_bits(start, count, value & mask);
                assert_eq!(view.get_bits(start, count), value & mask);
            }
            assert_eq!(blocks[0] & 0b00000111, 0b101);
            assert_eq!(blocks[1] & 0b11100000, 0b10100000);
        }
    }
}
