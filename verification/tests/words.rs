use embedded_parity::bits::BitBuffer;
use embedded_parity::parity::{check_group, decode, encode, source_parity, GroupError};

#[test]
fn widths_of_the_two_word_types() {
    assert_eq!(<u16 as BitBuffer>::bit_width(), 16);
    assert_eq!(<u32 as BitBuffer>::bit_width(), 32);
}

#[test]
fn bit_zero_is_the_least_significant_bit() {
    let w: u16 = 0b0000_0000_0000_0001;
    assert!(w.get_bit(0));
    for i in 1..16 {
        assert!(!w.get_bit(i));
    }
    let v: u32 = 0x8000_0000;
    assert!(v.get_bit(31));
    for i in 0..31 {
        assert!(!v.get_bit(i));
    }
}

#[test]
fn set_bit_changes_one_bit_only_u16() {
    for i in 0..16usize {
        let mut w: u16 = 0;
        w.set_bit(i, true);
        assert_eq!(w, 1u16 << i);
        let mut v: u16 = 0xFFFF;
        v.set_bit(i, false);
        assert_eq!(v, !(1u16 << i));
        let mut same: u16 = 0xA5C3;
        let bit = same.get_bit(i);
        same.set_bit(i, bit);
        assert_eq!(same, 0xA5C3);
    }
}

#[test]
fn set_bit_changes_one_bit_only_u32() {
    for i in 0..32usize {
        let mut w: u32 = 0;
        w.set_bit(i, true);
        assert_eq!(w, 1u32 << i);
        let mut v: u32 = 0xFFFF_FFFF;
        v.set_bit(i, false);
        assert_eq!(v, !(1u32 << i));
    }
}

#[test]
fn parity_is_the_xor_of_the_source_bits() {
    let w: u16 = 0b0000_0000_1011_0000;
    assert!(source_parity(&[4, 5, 7], &w));
    assert!(!source_parity(&[4, 5], &w));
    assert!(!source_parity(&[6], &w));
    assert!(!source_parity(&[], &w));
    assert!(source_parity(&[7, 6, 5], &w) == false);
    assert!(source_parity(&[7], &w));
}

#[test]
fn encode_writes_the_parity_at_the_destination() {
    let mut w: u16 = 0b0000_0000_0001_0000;
    assert_eq!(encode(&[6, 5, 4], 0, &mut w), Ok(()));
    assert_eq!(w, 0b0000_0000_0001_0001);

    let mut v: u16 = 0b0000_0000_0011_0001;
    assert_eq!(encode(&[6, 5, 4], 0, &mut v), Ok(()));
    assert_eq!(v, 0b0000_0000_0011_0000);
}

#[test]
fn decode_overwrites_a_stale_parity_bit() {
    let mut w: u32 = 0b0111_0001;
    assert_eq!(decode(&[6, 5, 4], 0, &mut w), Ok(()));
    assert_eq!(w, 0b0111_0001);

    let mut v: u32 = 0b0110_0001;
    assert_eq!(decode(&[6, 5, 4], 0, &mut v), Ok(()));
    assert_eq!(v, 0b0110_0000);
}

#[test]
fn destination_among_the_sources_is_rejected() {
    let mut w: u16 = 0x1234;
    assert_eq!(encode(&[3, 2, 1], 2, &mut w), Err(GroupError::DestinationIsSource));
    assert_eq!(w, 0x1234);
    assert_eq!(decode(&[3, 2, 1], 3, &mut w), Err(GroupError::DestinationIsSource));
    assert_eq!(w, 0x1234);
}

#[test]
fn index_beyond_the_word_is_rejected() {
    let mut w: u16 = 0x1234;
    assert_eq!(encode(&[16, 2, 1], 0, &mut w), Err(GroupError::IndexOutOfRange));
    assert_eq!(encode(&[3, 2, 1], 16, &mut w), Err(GroupError::IndexOutOfRange));
    assert_eq!(decode(&[3, 2, 99], 0, &mut w), Err(GroupError::IndexOutOfRange));
    assert_eq!(w, 0x1234);

    let mut v: u32 = 0xDEAD_BEEF;
    assert_eq!(encode(&[16, 2, 1], 0, &mut v), Ok(()));
    assert_eq!(encode(&[32, 2, 1], 0, &mut v), Err(GroupError::IndexOutOfRange));
}

#[test]
fn out_of_range_is_reported_before_a_repeated_destination() {
    assert_eq!(check_group(&[40, 2, 1], 2, 32), Err(GroupError::IndexOutOfRange));
    assert_eq!(check_group(&[2, 40], 2, 32), Err(GroupError::IndexOutOfRange));
    assert_eq!(check_group(&[2, 4], 2, 32), Err(GroupError::DestinationIsSource));
    assert_eq!(check_group(&[3, 4], 2, 32), Ok(()));
    assert_eq!(check_group(&[], 0, 0), Err(GroupError::IndexOutOfRange));
    assert_eq!(check_group(&[], 0, 1), Ok(()));
}
