use nibble_link::types::{Byte, Nibble};

#[test]
fn formatting() {
    assert_eq!(Nibble::from_u8(0b1111).to_string(), "1111");
    assert_eq!(Nibble::from_u8(0b0111).to_string(), "0111");
    assert_eq!(Nibble::from_u8(0b0000).to_string(), "0000");

    assert_eq!(Byte::from_u8(0b11110000).to_string(), "11110000");
    assert_eq!(Byte::from_u8(0b01010101).to_string(), "01010101");
    assert_eq!(Byte::from_u8(0b00000000).to_string(), "00000000");
}

#[test]
fn operations() {
    assert_eq!(
        Nibble::from_u8(0b0101).bitxor(Nibble::from_u8(0b0000)),
        Nibble::from_u8(0b0101)
    );

    assert_eq!(Nibble::from_u8(0b1000).get_msb(0), true);
    assert_eq!(Nibble::from_u8(0b1000).get_msb(1), false);
    assert_eq!(Nibble::from_u8(0b1000).get_msb(2), false);
    assert_eq!(Nibble::from_u8(0b1000).get_msb(3), false);

    assert_eq!(Nibble::from_u8(0b0010).get_lsb(0), false);
    assert_eq!(Nibble::from_u8(0b0010).get_lsb(1), true);
    assert_eq!(Nibble::from_u8(0b0010).get_lsb(2), false);
    assert_eq!(Nibble::from_u8(0b0010).get_lsb(3), false);
}

#[test]
fn nibbles_compare_by_low_bits() {
    assert_eq!(Nibble::from_u8(0x15), Nibble::from_u8(0x05));
    assert_ne!(Nibble::from_u8(0x15), Nibble::from_u8(0x06));
    assert_eq!(Nibble::from_u8(0xf3).to_string(), "0011");
}

#[test]
fn byte_halves_and_bits() {
    let b = Byte::from_u8(0xa7);
    assert_eq!(b.upper_nibble(), Nibble::from_u8(0xa));
    assert_eq!(b.lower_nibble(), Nibble::from_u8(0x7));
    assert!(!b.all());
    assert!(Byte::from_u8(0xff).all());
    assert!(b.not().bitxor(b).all());
    assert_eq!(Byte::from_u8(0x0f).not().to_string(), "11110000");
    assert_eq!(Nibble::from_u8(0b0101).not(), Nibble::from_u8(0b1010));
}

#[test]
fn lsb_reaches_the_upper_bits() {
    assert!(Nibble::from_u8(0b0010_0000).get_lsb(5));
    assert!(!Nibble::from_u8(0b0010_0000).get_lsb(4));
    assert!(Nibble::from_u8(0b1000_0000).get_lsb(7));
}
