use mini_udp::bit_repr::{BitRepr, BitReprError, BitReprExt, StaticBitRepr};

#[test]
fn write_many_of_bytes_stops_where_room_ends() {
    let mut bytes = [0u8; 3];
    let r = u8::write_many(&[1, 2, 3, 4], &mut bytes);
    assert_eq!(r, (3, 3));
    assert_eq!(bytes, [1, 2, 3]);
    let mut room = [9u8; 5];
    assert_eq!(u8::write_many(&[7, 8], &mut room), (2, 2));
    assert_eq!(room, [7, 8, 9, 9, 9]);
}

#[test]
fn read_many_of_bytes_reads_to_the_end() {
    let (values, n) = u8::read_many(&[5, 6, 7]);
    assert_eq!(values, vec![5, 6, 7]);
    assert_eq!(n, 3);
    let (none, zero) = u8::read_many(&[]);
    assert!(none.is_empty());
    assert_eq!(zero, 0);
}

#[test]
fn bit_repr_single_values_and_errors() {
    let mut empty: [u8; 0] = [];
    assert_eq!(4u8.write_to_bytes(&mut empty), Err(BitReprError::SliceTooShort));
    assert_eq!(u8::from_bytes(&[]), Err(BitReprError::SliceTooShort));
    assert_eq!(u8::from_bytes(&[42, 1]), Ok(42));
    assert_eq!(42u8.bit_len(), 1);
    assert_eq!(<u8 as StaticBitRepr>::BIT_LEN, 1);
    assert_eq!(BitReprError::SliceTooShort.message(), "The provided byte slice is too short");
    assert_eq!(BitReprError::InvalidValue.message(), "Encountered an unexpected value");
}
