use bv::{Address, BlockType};

#[test]
fn widths_of_the_block_types() {
    assert_eq!(<u8 as BlockType>::nbits(), 8);
    assert_eq!(<u16 as BlockType>::nbits(), 16);
    assert_eq!(<u32 as BlockType>::nbits(), 32);
    assert_eq!(<u64 as BlockType>::nbits(), 64);
    assert_eq!(<u128 as BlockType>::nbits(), 128);
    assert_eq!(<usize as BlockType>::nbits(), usize::BITS as usize);
}

#[test]
fn zero_and_one_of_each_block_type() {
    assert_eq!(<u8 as BlockType>::zero(), 0u8);
    assert_eq!(<u8 as BlockType>::one(), 1u8);
    assert_eq!(<u16 as BlockType>::zero(), 0u16);
    assert_eq!(<u16 as BlockType>::one(), 1u16);
    assert_eq!(<u32 as BlockType>::zero(), 0u32);
    assert_eq!(<u32 as BlockType>::one(), 1u32);
    assert_eq!(<u64 as BlockType>::zero(), 0u64);
    assert_eq!(<u64 as BlockType>::one(), 1u64);
    assert_eq!(<u128 as BlockType>::zero(), 0u128);
    assert_eq!(<u128 as BlockType>::one(), 1u128);
    assert_eq!(<usize as BlockType>::zero(), 0usize);
    assert_eq!(<usize as BlockType>::one(), 1usize);
}

#[test]
fn bitwise_operations_on_u8() {
    assert_eq!(0b1100u8.bit_and(0b1010), 0b1000);
    assert_eq!(0b1100u8.bit_or(0b1010), 0b1110);
    assert_eq!(0b1100u8.bit_not(), 0b11110011);
    assert!(7u8.equals(7));
    assert!(!7u8.equals(8));
}

#[test]
fn shifts_drop_bits_and_fill_with_zeros() {
    assert_eq!(0b10000001u8.shift_left(1), 0b00000010);
    assert_eq!(0b10000001u8.shift_right(1), 0b01000000);
    assert_eq!(0xffu8.shift_left(0), 0xff);
    assert_eq!(0xffu8.shift_right(0), 0xff);
    assert_eq!(0xffu8.shift_left(7), 0x80);
    assert_eq!(0xffu8.shift_right(7), 0x01);
}

#[test]
fn shifts_by_the_width_or_more_give_zero() {
    assert_eq!(0xffu8.shift_left(8), 0);
    assert_eq!(0xffu8.shift_right(8), 0);
    assert_eq!(0xffffu16.shift_left(16), 0);
    assert_eq!(0xffff_ffffu32.shift_right(32), 0);
    assert_eq!(u64::MAX.shift_left(64), 0);
    assert_eq!(u64::MAX.shift_right(1000), 0);
    assert_eq!(u128::MAX.shift_left(128), 0);
    assert_eq!(usize::MAX.shift_right(usize::BITS as usize), 0);
}

#[test]
fn div_nbits_is_the_quotient() {
    assert_eq!(<u8 as BlockType>::div_nbits(0), 0);
    assert_eq!(<u8 as BlockType>::div_nbits(7), 0);
    assert_eq!(<u8 as BlockType>::div_nbits(8), 1);
    assert_eq!(<u8 as BlockType>::div_nbits(17), 2);
    assert_eq!(<u16 as BlockType>::div_nbits(35), 2);
    assert_eq!(<u32 as BlockType>::div_nbits(95), 2);
    assert_eq!(<u64 as BlockType>::div_nbits(129), 2);
    assert_eq!(<u128 as BlockType>::div_nbits(1000), 7);
}

#[test]
fn mod_nbits_is_the_remainder() {
    assert_eq!(<u8 as BlockType>::mod_nbits(0), 0);
    assert_eq!(<u8 as BlockType>::mod_nbits(7), 7);
    assert_eq!(<u8 as BlockType>::mod_nbits(8), 0);
    assert_eq!(<u8 as BlockType>::mod_nbits(17), 1);
    assert_eq!(<u16 as BlockType>::mod_nbits(35), 3);
    assert_eq!(<u32 as BlockType>::mod_nbits(95), 31);
    assert_eq!(<u64 as BlockType>::mod_nbits(129), 1);
    assert_eq!(<u128 as BlockType>::mod_nbits(1000), 104);
    assert_eq!(<u64 as BlockType>::mod_nbits(u64::MAX), 63);
}

#[test]
fn ceil_div_nbits_rounds_up() {
    assert_eq!(<u8 as BlockType>::ceil_div_nbits(0), 0);
    assert_eq!(<u8 as BlockType>::ceil_div_nbits(1), 1);
    assert_eq!(<u8 as BlockType>::ceil_div_nbits(8), 1);
    assert_eq!(<u8 as BlockType>::ceil_div_nbits(9), 2);
    assert_eq!(<u32 as BlockType>::ceil_div_nbits(64), 2);
    assert_eq!(<u32 as BlockType>::ceil_div_nbits(65), 3);
    assert_eq!(<u64 as BlockType>::ceil_div_nbits(u64::MAX), 1usize << 58);
}

#[test]
fn mul_nbits_is_the_first_bit_of_a_block() {
    assert_eq!(<u8 as BlockType>::mul_nbits(0), 0);
    assert_eq!(<u8 as BlockType>::mul_nbits(3), 24);
    assert_eq!(<u32 as BlockType>::mul_nbits(3), 96);
    assert_eq!(<u128 as BlockType>::mul_nbits(2), 256);
}

#[test]
fn last_block_bits_is_full_at_a_boundary() {
    assert_eq!(<u8 as BlockType>::last_block_bits(0), 8);
    assert_eq!(<u8 as BlockType>::last_block_bits(8), 8);
    assert_eq!(<u8 as BlockType>::last_block_bits(16), 8);
    assert_eq!(<u8 as BlockType>::last_block_bits(13), 5);
    assert_eq!(<u8 as BlockType>::last_block_bits(1), 1);
    assert_eq!(<u64 as BlockType>::last_block_bits(65), 1);
    assert_eq!(<u64 as BlockType>::last_block_bits(128), 64);
}

#[test]
fn low_mask_sets_the_low_bits() {
    assert_eq!(<u8 as BlockType>::low_mask(0), 0);
    assert_eq!(<u8 as BlockType>::low_mask(1), 1);
    assert_eq!(<u8 as BlockType>::low_mask(3), 0b111);
    assert_eq!(<u8 as BlockType>::low_mask(8), 0xff);
    assert_eq!(<u16 as BlockType>::low_mask(9), 0x01ff);
    assert_eq!(<u32 as BlockType>::low_mask(32), u32::MAX);
    assert_eq!(<u64 as BlockType>::low_mask(64), u64::MAX);
    assert_eq!(<u64 as BlockType>::low_mask(63), u64::MAX >> 1);
    assert_eq!(<u128 as BlockType>::low_mask(128), u128::MAX);
    assert_eq!(<u128 as BlockType>::low_mask(100), (1u128 << 100) - 1);
    assert_eq!(<usize as BlockType>::low_mask(usize::BITS as usize), usize::MAX);
}

#[test]
fn nth_mask_sets_one_bit() {
    assert_eq!(<u8 as BlockType>::nth_mask(0), 1);
    assert_eq!(<u8 as BlockType>::nth_mask(7), 0x80);
    assert_eq!(<u16 as BlockType>::nth_mask(15), 0x8000);
    assert_eq!(<u128 as BlockType>::nth_mask(127), 1u128 << 127);
}

#[test]
fn block_get_bit_reads_from_the_least_significant_end() {
    let block = 0b01001000u8;
    assert!(!BlockType::get_bit(block, 0));
    assert!(BlockType::get_bit(block, 3));
    assert!(BlockType::get_bit(block, 6));
    assert!(!BlockType::get_bit(block, 7));
    assert!(BlockType::get_bit(1u128 << 127, 127));
    assert!(!BlockType::get_bit(1u128 << 127, 126));
}

#[test]
fn block_with_bit_replaces_one_bit() {
    assert_eq!(0u8.with_bit(0, true), 1);
    assert_eq!(0u8.with_bit(7, true), 0x80);
    assert_eq!(0xffu8.with_bit(7, false), 0x7f);
    assert_eq!(0xffu8.with_bit(3, true), 0xff);
    assert_eq!(0u8.with_bit(3, false), 0);
    assert_eq!(0u64.with_bit(63, true), 1u64 << 63);
}

#[test]
fn block_get_bits_reads_a_field() {
    assert_eq!(BlockType::get_bits(0b01001000u8, 3, 4), 0b1001);
    assert_eq!(BlockType::get_bits(0b01001000u8, 0, 8), 0b01001000);
    assert_eq!(BlockType::get_bits(0b01001000u8, 4, 4), 0b0100);
    assert_eq!(BlockType::get_bits(0xffu8, 2, 0), 0);
    assert_eq!(BlockType::get_bits(0xffu8, 8, 0), 0);
    assert_eq!(BlockType::get_bits(0xABCDu16, 4, 8), 0xBC);
    assert_eq!(BlockType::get_bits(0xDEADBEEFu32, 16, 16), 0xDEAD);
    assert_eq!(BlockType::get_bits(u128::MAX, 1, 127), u128::MAX >> 1);
}

#[test]
fn block_with_bits_writes_a_field_and_keeps_the_rest() {
    assert_eq!(0xffu8.with_bits(2, 3, 0b010), 0b11101011);
    assert_eq!(0u8.with_bits(2, 3, 0xff), 0b00011100);
    assert_eq!(0x12u8.with_bits(0, 8, 0x34), 0x34);
    assert_eq!(0x12u8.with_bits(5, 0, 0xff), 0x12);
    assert_eq!(0x12u8.with_bits(8, 0, 0xff), 0x12);
    assert_eq!(0xABCDu16.with_bits(4, 8, 0x00), 0xA00D);
    assert_eq!(0u64.with_bits(60, 4, 0xF), 0xF000_0000_0000_0000);
    assert_eq!(0u128.with_bits(120, 8, 0xA5), 0xA5u128 << 120);
}

#[test]
fn block_with_bits_then_get_bits_gives_the_field_back() {
    let block = 0xC3u8.with_bits(1, 5, 0b10110);
    assert_eq!(BlockType::get_bits(block, 1, 5), 0b10110);
    assert_eq!(block & 0b11000001, 0xC3 & 0b11000001);
}

#[test]
fn address_is_quotient_and_remainder() {
    let a = Address::new::<u8>(0);
    assert_eq!(a, Address { block_index: 0, bit_offset: 0 });
    let a = Address::new::<u8>(11);
    assert_eq!(a, Address { block_index: 1, bit_offset: 3 });
    let a = Address::new::<u16>(35);
    assert_eq!(a, Address { block_index: 2, bit_offset: 3 });
    let a = Address::new::<u32>(64);
    assert_eq!(a, Address { block_index: 2, bit_offset: 0 });
    let a = Address::new::<u64>(63);
    assert_eq!(a, Address { block_index: 0, bit_offset: 63 });
    let a = Address::new::<u128>(300);
    assert_eq!(a, Address { block_index: 2, bit_offset: 44 });
}
