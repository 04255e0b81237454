use ssz_bits::{byte_length, Bitlist, BitlistError};

const COUNT: usize = 256;

#[test]
fn encode_bitlist() {
    let value: Bitlist<COUNT> = Bitlist::default();
    let mut buffer = vec![];
    let _ = value.serialize(&mut buffer).expect("can encode");
    let expected = [1u8];
    assert_eq!(buffer, expected);

    let mut value: Bitlist<COUNT> = Bitlist::default();
    value.push(false);
    value.push(true);
    let mut buffer = vec![];
    let _ = value.serialize(&mut buffer).expect("can encode");
    let expected = [6u8];
    assert_eq!(buffer, expected);

    let mut value: Bitlist<COUNT> = Bitlist::default();
    value.push(false);
    value.push(false);
    value.push(false);
    value.push(true);
    value.push(true);
    value.push(false);
    value.push(false);
    value.push(false);
    assert!(!value.get(0).expect("test data correct"));
    assert!(value.get(3).expect("test data correct"));
    assert!(value.get(4).expect("test data correct"));
    assert!(!value.get(7).expect("test data correct"));
    let mut buffer = vec![];
    let _ = value.serialize(&mut buffer).expect("can encode");
    let expected = [24u8, 1u8];
    assert_eq!(buffer, expected);
}

#[test]
fn decode_bitlist() {
    let bytes = vec![1u8];
    let result = Bitlist::<COUNT>::deserialize(&bytes).expect("test data is correct");
    let expected = Bitlist::from_bools(&vec![]);
    assert_eq!(result, expected);

    let bytes = vec![24u8, 1u8];
    let result = Bitlist::<COUNT>::deserialize(&bytes).expect("test data is correct");
    let expected = Bitlist::from_bools(&vec![false, false, false, true, true, false, false, false]);
    assert_eq!(result, expected);

    let bytes = vec![24u8, 2u8];
    let result = Bitlist::<COUNT>::deserialize(&bytes).expect("test data is correct");
    let expected =
        Bitlist::from_bools(&vec![false, false, false, true, true, false, false, false, false]);
    assert_eq!(result, expected);
    let bytes = vec![24u8, 3u8];
    let result = Bitlist::<COUNT>::deserialize(&bytes).expect("test data is correct");
    let expected =
        Bitlist::from_bools(&vec![false, false, false, true, true, false, false, false, true]);
    assert_eq!(result, expected);
}

#[test]
fn roundtrip_bitlist() {
    let input = Bitlist::<COUNT>::from_bools(&vec![
        false, false, false, true, true, false, false, false, false, false, false, false, false,
        false, false, true, true, false, false, false, false, false, false, false, true,
    ]);
    let mut buffer = vec![];
    let _ = input.serialize(&mut buffer).expect("can serialize");
    let recovered = Bitlist::<COUNT>::deserialize(&buffer).expect("can decode");
    assert_eq!(input, recovered);
}

#[test]
fn check_parity_codec() {
    let input = Bitlist::<COUNT>::from_bools(&vec![
        false, false, false, true, true, false, false, false, false, false, false, false, false,
        false, false, true, true, false, false, false, false, false, false, false, true,
    ]);
    let encoded = input.encode();
    let recovered = Bitlist::<COUNT>::decode(&encoded).expect("can decode");
    assert_eq!(input, recovered);
}

#[test]
fn scale_encoding_is_length_prefixed_bytes() {
    let mut value: Bitlist<COUNT> = Bitlist::default();
    value.push(false);
    value.push(true);
    // a compact two-element count, then one byte per boolean
    assert_eq!(value.encode(), vec![0x08u8, 0x00u8, 0x01u8]);

    let recovered = Bitlist::<COUNT>::decode(&[0x08u8, 0x00u8, 0x01u8]).expect("can decode");
    assert_eq!(recovered, value);
}

#[test]
fn scale_decoding_respects_the_bound() {
    let err = Bitlist::<1>::decode(&[0x08u8, 0x00u8, 0x01u8]).unwrap_err();
    assert_eq!(err, BitlistError::CapacityExceeded);

    let err = Bitlist::<COUNT>::decode(&[0x04u8, 0x07u8]).unwrap_err();
    assert_eq!(err, BitlistError::InvalidScale);
}

#[test]
fn sentinel_spills_into_a_new_byte_on_alignment() {
    // eight data bits fill a byte; the sentinel needs a second one
    let aligned = Bitlist::<COUNT>::from_bools(&vec![true; 8]);
    let mut buffer = vec![];
    let written = aligned.serialize(&mut buffer).expect("can encode");
    assert_eq!(written, 2);
    assert_eq!(buffer, [0xffu8, 0x01u8]);

    // three data bits share their byte with the sentinel at position three
    let partial = Bitlist::<COUNT>::from_bools(&vec![true, true, true]);
    let mut buffer = vec![];
    let written = partial.serialize(&mut buffer).expect("can encode");
    assert_eq!(written, 1);
    assert_eq!(buffer, [0x0fu8]);
}

#[test]
fn decoding_rejects_malformed_input() {
    let err = Bitlist::<COUNT>::deserialize(&[]).unwrap_err();
    assert_eq!(err, BitlistError::InputTooShort);

    let err = Bitlist::<COUNT>::deserialize(&[0x00u8]).unwrap_err();
    assert_eq!(err, BitlistError::MissingSentinel);

    let err = Bitlist::<COUNT>::deserialize(&[0x01u8, 0x00u8]).unwrap_err();
    assert_eq!(err, BitlistError::MissingSentinel);

    // capacity 8 encodes to at most two bytes
    let err = Bitlist::<8>::deserialize(&[0x01u8, 0x01u8, 0x01u8]).unwrap_err();
    assert_eq!(err, BitlistError::InputTooLong);

    // seven data bits do not fit a capacity of three
    let err = Bitlist::<3>::deserialize(&[0xffu8]).unwrap_err();
    assert_eq!(err, BitlistError::CapacityExceeded);
}

#[test]
fn get_and_set_operate_on_existing_positions_only() {
    let mut value: Bitlist<COUNT> = Bitlist::default();
    value.push(true);
    value.push(false);
    assert_eq!(value.get(2), None);
    assert_eq!(value.set(2, true), None);
    assert_eq!(value.set(1, true), Some(false));
    assert_eq!(value.get(1), Some(true));
    assert_eq!(value.set(0, false), Some(true));
    assert_eq!(value.get(0), Some(false));
    assert_eq!(value.len(), 2);
}

#[test]
fn bulk_construction_truncates_to_capacity() {
    let value = Bitlist::<2>::from_bools(&vec![true, false, true, true]);
    assert_eq!(value.len(), 2);
    let mut value = value;
    assert_eq!(value.get(0), Some(true));
    assert_eq!(value.get(1), Some(false));
    assert_eq!(value.get(2), None);
}

#[test]
fn byte_length_counts_the_sentinel() {
    assert_eq!(byte_length(0), 1);
    assert_eq!(byte_length(7), 1);
    assert_eq!(byte_length(8), 2);
    assert_eq!(byte_length(256), 33);
}

#[test]
fn hex_round_trip() {
    let mut value: Bitlist<COUNT> = Bitlist::default();
    value.push(false);
    value.push(true);
    assert_eq!(value.to_hex_string(), "0x06");

    let empty: Bitlist<COUNT> = Bitlist::default();
    assert_eq!(empty.to_hex_string(), "0x01");

    let decoded = Bitlist::<COUNT>::from_hex_string("0x06").expect("can decode");
    assert_eq!(decoded, value);

    let long = Bitlist::<COUNT>::from_bools(&vec![
        false, false, false, true, true, false, false, false, true,
    ]);
    let text = long.to_hex_string();
    assert_eq!(text, "0x1803");
    let recovered = Bitlist::<COUNT>::from_hex_string(&text).expect("can decode");
    assert_eq!(recovered, long);
}

#[test]
fn hex_decoding_rejects_malformed_text() {
    let err = Bitlist::<COUNT>::from_hex_string("0").unwrap_err();
    assert_eq!(err, BitlistError::InputTooShort);

    let err = Bitlist::<COUNT>::from_hex_string("0xzz").unwrap_err();
    assert_eq!(err, BitlistError::InvalidHex);

    let err = Bitlist::<COUNT>::from_hex_string("0x123").unwrap_err();
    assert_eq!(err, BitlistError::InvalidHex);

    // the hexadecimal is well-formed but carries no sentinel
    let err = Bitlist::<COUNT>::from_hex_string("0x00").unwrap_err();
    assert_eq!(err, BitlistError::MissingSentinel);
}

#[test]
fn decoding_accepts_exactly_the_capacity() {
    // eight data bits against a capacity of eight: right at the bound
    let full = Bitlist::<8>::deserialize(&[0xffu8, 0x01u8]).expect("can decode");
    assert_eq!(full.len(), 8);
    let mut buffer = vec![];
    let _ = full.serialize(&mut buffer).expect("can encode");
    assert_eq!(buffer, [0xffu8, 0x01u8]);

    // one bit more does not fit
    let err = Bitlist::<8>::deserialize(&[0xffu8, 0x02u8]).unwrap_err();
    assert_eq!(err, BitlistError::CapacityExceeded);
}
