use anvil_sim::bits::{read_reg_at_cycle, read_reg_bits, write_reg_bits};

#[test]
fn read_bits_from_start() {
    let data = vec![0b1010_1101u8, 0b0000_0001u8];
    assert_eq!(read_reg_bits(&data, 0, 8), 0b1010_1101);
    assert_eq!(read_reg_bits(&data, 0, 4), 0b1101);
    assert_eq!(read_reg_bits(&data, 0, 9), 0b1_1010_1101);
}

#[test]
fn read_bits_at_offset_across_bytes() {
    let data = vec![0b1000_0000u8, 0b0000_0011u8];
    assert_eq!(read_reg_bits(&data, 7, 3), 0b111);
    assert_eq!(read_reg_bits(&data, 6, 4), 0b1110);
}

#[test]
fn read_bits_past_the_end_are_zero() {
    let data = vec![0xffu8];
    assert_eq!(read_reg_bits(&data, 4, 8), 0b1111);
    assert_eq!(read_reg_bits(&[], 0, 64), 0);
}

#[test]
fn read_bits_caps_at_64() {
    let data = vec![0xffu8; 10];
    assert_eq!(read_reg_bits(&data, 0, 80), -1);
    assert_eq!(read_reg_bits(&data, 0, 64), -1);
    assert_eq!(read_reg_bits(&data, 0, 63), i64::MAX);
}

#[test]
fn write_bits_grows_storage() {
    let mut data: Vec<u8> = Vec::new();
    write_reg_bits(&mut data, 4, 8, 0xab);
    assert_eq!(data, vec![0xb0u8, 0x0au8]);
}

#[test]
fn write_bits_keeps_other_bits() {
    let mut data = vec![0xffu8, 0xffu8];
    write_reg_bits(&mut data, 4, 4, 0);
    assert_eq!(data, vec![0x0fu8, 0xffu8]);
}

#[test]
fn write_bits_past_bit_63_are_zero() {
    let mut data = vec![0xffu8; 10];
    write_reg_bits(&mut data, 0, 80, -1);
    assert_eq!(data, vec![0xff, 0xff, 0xff, 0xff, 0xff, 0xff, 0xff, 0xff, 0x00, 0x00]);
}

#[test]
fn read_after_write_gives_value_back() {
    let mut data = vec![0x5au8; 3];
    write_reg_bits(&mut data, 3, 11, 1234);
    assert_eq!(read_reg_bits(&data, 3, 11), 1234 & ((1 << 11) - 1));
    write_reg_bits(&mut data, 3, 5, -1);
    assert_eq!(read_reg_bits(&data, 3, 5), 0b11111);
    assert_eq!(read_reg_bits(&data, 8, 6), (1234 >> 5) & 0b111111);
}

#[test]
fn read_at_cycle_picks_latest_committed() {
    let versions = vec![(0usize, vec![1u8]), (3, vec![2u8]), (5, vec![3u8])];
    assert_eq!(read_reg_at_cycle(&versions, 0), &[1u8][..]);
    assert_eq!(read_reg_at_cycle(&versions, 4), &[2u8][..]);
    assert_eq!(read_reg_at_cycle(&versions, 5), &[3u8][..]);
    assert_eq!(read_reg_at_cycle(&versions, 100), &[3u8][..]);
}

#[test]
fn read_at_cycle_before_any_version_is_empty() {
    let versions = vec![(2usize, vec![1u8])];
    assert!(read_reg_at_cycle(&versions, 1).is_empty());
    assert!(read_reg_at_cycle(&[], 7).is_empty());
}

#[test]
fn writing_twice_is_writing_once() {
    let mut once = vec![0xa5u8, 0x0f];
    write_reg_bits(&mut once, 5, 9, 0x1ff);
    let mut twice = vec![0xa5u8, 0x0f];
    write_reg_bits(&mut twice, 5, 9, 0x1ff);
    write_reg_bits(&mut twice, 5, 9, 0x1ff);
    assert_eq!(once, twice);
}
