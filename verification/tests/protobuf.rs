use sublime::protobuf::{
    packed_varints, read_varint, reference_identifier, tag_size, varint_size, write_tag, write_varint,
    zigzag_decode, zigzag_encode, Field, FieldReader, ProtobufError, Value,
};

fn fields(bytes: &[u8]) -> Vec<Field<'_>> {
    let mut reader = FieldReader::new(bytes);
    let mut out = Vec::new();
    while let Some(field) = reader.next() {
        out.push(field.unwrap());
    }
    out
}

#[test]
fn reads_every_wire_type() {
    let bytes = [
        0x08, 0x96, 0x01, // field 1 varint 150
        0x11, 1, 0, 0, 0, 0, 0, 0, 0, // field 2 fixed64 1
        0x1A, 0x03, b'a', b'b', b'c', // field 3 bytes "abc"
        0x25, 7, 0, 0, 0, // field 4 fixed32 7
    ];
    assert_eq!(
        fields(&bytes),
        vec![
            Field { number: 1, value: Value::Varint(150) },
            Field { number: 2, value: Value::Fixed64(1) },
            Field { number: 3, value: Value::Bytes(b"abc") },
            Field { number: 4, value: Value::Fixed32(7) },
        ]
    );
}

#[test]
fn groups_are_skipped_as_one_value() {
    // field 5 group { field 1 varint 3 } end
    let bytes = [0x2B, 0x08, 0x03, 0x2C, 0x08, 0x01];
    let parsed = fields(&bytes);
    assert_eq!(parsed[0], Field { number: 5, value: Value::Group(&[0x08, 0x03]) });
    assert_eq!(parsed[1], Field { number: 1, value: Value::Varint(1) });
}

#[test]
fn truncation_is_an_error_not_a_panic() {
    let mut reader = FieldReader::new(&[0x1A, 0x05, b'a']);
    assert_eq!(reader.next(), Some(Err(ProtobufError::Truncated { offset: 0 })));
    assert_eq!(reader.next(), None);
}

#[test]
fn packed_values_decode() {
    assert_eq!(packed_varints(&[0x01, 0x96, 0x01, 0x02]).unwrap(), vec![1, 150, 2]);
}

#[test]
fn varint_sizes() {
    assert_eq!(varint_size(0), 1);
    assert_eq!(varint_size(127), 1);
    assert_eq!(varint_size(128), 2);
    assert_eq!(varint_size(u64::MAX), 10);
}

#[test]
fn varints_read_back_what_was_written() {
    for value in [0u64, 1, 127, 128, 150, 300, 16_383, 16_384, 1 << 35, u64::MAX - 1, u64::MAX] {
        let mut out = vec![0xAA];
        write_varint(&mut out, value);
        assert_eq!(out.len(), 1 + varint_size(value));
        assert_eq!(read_varint(&out, 1), Ok((value, varint_size(value))));
    }
    let mut out = Vec::new();
    write_varint(&mut out, 150);
    assert_eq!(out, vec![0x96, 0x01]);
}

#[test]
fn varint_errors() {
    assert_eq!(read_varint(&[0x80, 0x80], 0), Err(ProtobufError::Truncated { offset: 0 }));
    assert_eq!(read_varint(&[], 0), Err(ProtobufError::Truncated { offset: 0 }));
    let long = [0xFFu8; 11];
    assert_eq!(read_varint(&long, 0), Err(ProtobufError::VarintTooLong { offset: 0 }));
}

#[test]
fn bad_wire_types_and_stray_group_ends() {
    let mut reader = FieldReader::new(&[0x0E, 0x00]);
    assert_eq!(reader.next(), Some(Err(ProtobufError::BadWireType { offset: 0, wire_type: 6 })));
    let mut reader = FieldReader::new(&[0x0C]);
    assert_eq!(reader.next(), Some(Err(ProtobufError::UnexpectedGroupEnd { offset: 0 })));
}

#[test]
fn zigzag_round_trips() {
    for value in [0i64, -1, 1, -2, 2, i64::MAX, i64::MIN, 1234, -1234] {
        assert_eq!(zigzag_decode(zigzag_encode(value)), value);
    }
    assert_eq!(zigzag_encode(-1), 1);
    assert_eq!(zigzag_encode(1), 2);
    assert_eq!(zigzag_encode(-2), 3);
    assert_eq!(zigzag_decode(4), 2);
}

#[test]
fn tags_carry_number_and_wire_type() {
    let mut out = Vec::new();
    write_tag(&mut out, 1, 0);
    write_tag(&mut out, 16, 2);
    assert_eq!(out, vec![0x08, 0x82, 0x01]);
    assert_eq!(tag_size(15), 1);
    assert_eq!(tag_size(16), 2);
}

#[test]
fn reference_identifiers() {
    assert_eq!(reference_identifier(&[0x08, 0x2A]), Some(42));
    assert_eq!(reference_identifier(&[0x10, 0x2A]), None);
}
