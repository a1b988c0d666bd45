use payload_codec::{Codec, Cursor, DecodeError, VarInt};

fn encode_to_vec<T: Codec>(value: &T) -> Vec<u8> {
    let mut buffer = Vec::new();
    value.encode(&mut buffer).unwrap();
    buffer
}

fn varints(values: &[u64]) -> Vec<VarInt> {
    values.iter().map(|v| VarInt(*v)).collect()
}

#[test]
fn varint_single_byte_forms() {
    assert_eq!(encode_to_vec(&VarInt(0)), vec![0x00]);
    assert_eq!(encode_to_vec(&VarInt(1)), vec![0x01]);
    assert_eq!(encode_to_vec(&VarInt(0xfc)), vec![0xfc]);
}

#[test]
fn varint_marker_forms() {
    assert_eq!(encode_to_vec(&VarInt(0xfd)), vec![0xfd, 0xfd, 0x00]);
    assert_eq!(encode_to_vec(&VarInt(300)), vec![0xfd, 0x2c, 0x01]);
    assert_eq!(encode_to_vec(&VarInt(0xffff)), vec![0xfd, 0xff, 0xff]);
    assert_eq!(encode_to_vec(&VarInt(0x1_0000)), vec![0xfe, 0x00, 0x00, 0x01, 0x00]);
    assert_eq!(encode_to_vec(&VarInt(0xffff_ffff)), vec![0xfe, 0xff, 0xff, 0xff, 0xff]);
    assert_eq!(
        encode_to_vec(&VarInt(0x1_0000_0000)),
        vec![0xff, 0x00, 0x00, 0x00, 0x00, 0x01, 0x00, 0x00, 0x00]
    );
    assert_eq!(
        encode_to_vec(&VarInt(u64::MAX)),
        vec![0xff, 0xff, 0xff, 0xff, 0xff, 0xff, 0xff, 0xff, 0xff]
    );
}

#[test]
fn varint_round_trip_consumes_exactly() {
    for v in [0u64, 7, 0xfc, 0xfd, 0xffff, 0x1_0000, 0xffff_ffff, 0x1_0000_0000, u64::MAX] {
        let mut bytes = encode_to_vec(&VarInt(v));
        let len = bytes.len();
        bytes.extend_from_slice(&[0xaa, 0xbb]);
        let mut cursor = Cursor::new(&bytes);
        assert_eq!(VarInt::decode(&mut cursor), Ok(VarInt(v)));
        assert_eq!(cursor.position(), len);
        assert_eq!(cursor.remaining_len(), 2);
    }
}

#[test]
fn varint_truncated_input() {
    let inputs: [&[u8]; 4] = [&[], &[0xfd, 0x05], &[0xfe, 0x00, 0x00, 0x01], &[0xff, 0x01]];
    for bytes in inputs {
        let mut cursor = Cursor::new(bytes);
        assert_eq!(VarInt::decode(&mut cursor), Err(DecodeError::TruncatedInput));
    }
}

#[test]
fn varint_non_canonical_is_malformed() {
    let inputs: [&[u8]; 3] = [
        &[0xfd, 0xfc, 0x00],
        &[0xfe, 0xff, 0xff, 0x00, 0x00],
        &[0xff, 0xff, 0xff, 0xff, 0xff, 0x00, 0x00, 0x00, 0x00],
    ];
    for bytes in inputs {
        let mut cursor = Cursor::new(bytes);
        assert_eq!(VarInt::decode(&mut cursor), Err(DecodeError::MalformedElement));
    }
}

#[test]
fn sequence_round_trip() {
    let values = varints(&[1, 300, 70000, 0, u64::MAX]);
    let bytes = encode_to_vec(&values);
    let mut cursor = Cursor::new(&bytes);
    assert_eq!(Vec::<VarInt>::decode(&mut cursor), Ok(values));
    assert_eq!(cursor.position(), bytes.len());
}

#[test]
fn sequence_order_preserved() {
    let values = varints(&[3, 1, 2]);
    let bytes = encode_to_vec(&values);
    assert_eq!(bytes, vec![0x03, 0x03, 0x01, 0x02]);
    let mut cursor = Cursor::new(&bytes);
    let decoded = Vec::<VarInt>::decode(&mut cursor).unwrap();
    assert_eq!(decoded, varints(&[3, 1, 2]));
    assert_ne!(decoded, varints(&[2, 1, 3]));
}

#[test]
fn empty_sequence_is_count_zero() {
    let empty: Vec<VarInt> = Vec::new();
    let bytes = encode_to_vec(&empty);
    assert_eq!(bytes, encode_to_vec(&VarInt(0)));
    assert_eq!(bytes, vec![0x00]);
    let mut cursor = Cursor::new(&bytes);
    assert_eq!(Vec::<VarInt>::decode(&mut cursor), Ok(Vec::new()));
    assert_eq!(cursor.position(), 1);
}

#[test]
fn truncated_last_element_fails() {
    let values = varints(&[1, 2, 300]);
    let mut bytes = encode_to_vec(&values);
    assert_eq!(bytes, vec![0x03, 0x01, 0x02, 0xfd, 0x2c, 0x01]);
    bytes.pop();
    let mut cursor = Cursor::new(&bytes);
    assert_eq!(Vec::<VarInt>::decode(&mut cursor), Err(DecodeError::TruncatedInput));
}

#[test]
fn truncated_single_byte_elements_fail() {
    let values = varints(&[1, 2, 3]);
    let mut bytes = encode_to_vec(&values);
    bytes.pop();
    let mut cursor = Cursor::new(&bytes);
    assert_eq!(Vec::<VarInt>::decode(&mut cursor), Err(DecodeError::TruncatedInput));
}

#[test]
fn every_strict_prefix_is_truncated() {
    let values = vec![varints(&[1, 0x1_0000]), varints(&[]), varints(&[0xfd])];
    let bytes = encode_to_vec(&values);
    for cut in 0..bytes.len() {
        let mut cursor = Cursor::new(&bytes[..cut]);
        assert_eq!(
            Vec::<Vec<VarInt>>::decode(&mut cursor),
            Err(DecodeError::TruncatedInput)
        );
    }
}

#[test]
fn nested_sequences_round_trip() {
    let nested = vec![varints(&[1, 2]), varints(&[3])];
    let bytes = encode_to_vec(&nested);
    assert_eq!(bytes, vec![0x02, 0x02, 0x01, 0x02, 0x01, 0x03]);
    let mut cursor = Cursor::new(&bytes);
    let decoded = Vec::<Vec<VarInt>>::decode(&mut cursor).unwrap();
    assert_eq!(decoded.len(), 2);
    assert_eq!(decoded[0].len(), 2);
    assert_eq!(decoded[1].len(), 1);
    assert_eq!(decoded, nested);
    assert_eq!(cursor.position(), bytes.len());
}

#[test]
fn oversized_count_fails_promptly() {
    let bytes = vec![0xff, 0xff, 0xff, 0xff, 0xff, 0xff, 0xff, 0xff, 0xff, 0x01, 0x02];
    let mut cursor = Cursor::new(&bytes);
    assert_eq!(Vec::<VarInt>::decode(&mut cursor), Err(DecodeError::TruncatedInput));

    let bytes = vec![0x05, 0x01, 0x02];
    let mut cursor = Cursor::new(&bytes);
    assert_eq!(Vec::<VarInt>::decode(&mut cursor), Err(DecodeError::TruncatedInput));
}

#[test]
fn oversized_count_wins_over_malformed_element() {
    let bytes = vec![0x05, 0xfd, 0x00, 0x00];
    let mut cursor = Cursor::new(&bytes);
    assert_eq!(Vec::<VarInt>::decode(&mut cursor), Err(DecodeError::TruncatedInput));
}

#[test]
fn malformed_element_is_propagated() {
    let bytes = vec![0x02, 0x01, 0xfd, 0x01, 0x00];
    let mut cursor = Cursor::new(&bytes);
    assert_eq!(Vec::<VarInt>::decode(&mut cursor), Err(DecodeError::MalformedElement));
}

#[test]
fn malformed_count_is_reported() {
    let bytes = vec![0xfd, 0x02, 0x00, 0x01, 0x02];
    let mut cursor = Cursor::new(&bytes);
    assert_eq!(Vec::<VarInt>::decode(&mut cursor), Err(DecodeError::MalformedElement));
}

#[test]
fn trailing_bytes_are_left_unread() {
    let bytes = vec![0x01, 0x07, 0x09, 0x09];
    let mut cursor = Cursor::new(&bytes);
    assert_eq!(Vec::<VarInt>::decode(&mut cursor), Ok(varints(&[7])));
    assert_eq!(cursor.position(), 2);
    assert_eq!(cursor.remaining_len(), 2);
}

#[test]
fn encode_appends_after_existing_bytes() {
    let mut buffer = vec![0xaa, 0xbb];
    varints(&[5, 6]).encode(&mut buffer).unwrap();
    assert_eq!(buffer, vec![0xaa, 0xbb, 0x02, 0x05, 0x06]);
}

#[test]
fn consecutive_values_decode_in_turn() {
    let mut buffer = Vec::new();
    varints(&[1, 2]).encode(&mut buffer).unwrap();
    VarInt(0x1_0000).encode(&mut buffer).unwrap();
    let mut cursor = Cursor::new(&buffer);
    assert_eq!(Vec::<VarInt>::decode(&mut cursor), Ok(varints(&[1, 2])));
    assert_eq!(VarInt::decode(&mut cursor), Ok(VarInt(0x1_0000)));
    assert_eq!(cursor.remaining_len(), 0);
}

#[test]
fn read_u8_advances_until_end() {
    let bytes = vec![0x10, 0x20];
    let mut cursor = Cursor::new(&bytes);
    assert_eq!(cursor.read_u8(), Ok(0x10));
    assert_eq!(cursor.read_u8(), Ok(0x20));
    assert_eq!(cursor.read_u8(), Err(DecodeError::TruncatedInput));
    assert_eq!(cursor.position(), 2);
}
