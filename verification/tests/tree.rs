use sublime::protobuf::schema::{find_message, Field, Kind, Message};
use sublime::protobuf::tree::{Entry, Node, Tree, TreeError, NO_SCHEMA};
use sublime::protobuf::{Chain, ProtobufError, Span, NONE};

// Inner { 1 count: repeated packed uint }, Outer { 1 name: string,
// 2 inner: Inner, 3 target: reference, 4 delta: sint, 5 ratio: float }.
fn schema() -> &'static [Message] {
    let inner: &'static [Field] = Box::leak(
        vec![Field { number: 1, name: "count", kind: Kind::Uint, repeated: true, packed: true }].into_boxed_slice(),
    );
    let outer: &'static [Field] = Box::leak(
        vec![
            Field { number: 1, name: "name", kind: Kind::String, repeated: false, packed: false },
            Field { number: 2, name: "inner", kind: Kind::Message(0), repeated: false, packed: false },
            Field { number: 3, name: "target", kind: Kind::Reference, repeated: false, packed: false },
            Field { number: 4, name: "delta", kind: Kind::Sint, repeated: false, packed: false },
            Field { number: 5, name: "ratio", kind: Kind::Float, repeated: false, packed: false },
        ]
        .into_boxed_slice(),
    );
    Box::leak(
        vec![Message { name: "Inner", fields: inner }, Message { name: "Outer", fields: outer }].into_boxed_slice(),
    )
}

const OUTER: u16 = 1;

fn sample() -> Vec<u8> {
    let mut bytes = vec![0x0A, 0x02, b'h', b'i']; // name "hi"
    bytes.extend_from_slice(&[0x12, 0x05, 0x0A, 0x03, 0x03, 0x80, 0x01]); // inner { count packed [3, 128] }
    bytes.extend_from_slice(&[0x1A, 0x02, 0x08, 0x2A]); // target ref 42
    bytes.extend_from_slice(&[0x20, 0x03]); // delta sint -2
    bytes.extend_from_slice(&[0x2D, 0x00, 0x00, 0x80, 0x3F]); // ratio 1.0
    bytes.extend_from_slice(&[0x30, 0x07]); // unknown field 6 varint 7
    bytes
}

fn chain_entries(tree: &Tree, first: u32) -> Vec<Entry> {
    tree.chain(first).iter().map(|&index| tree.entries[index as usize]).collect()
}

#[test]
fn decodes_named_and_unknown_fields() {
    let mut tree = Tree::new(schema());
    let first = tree.decode(&sample(), Some(OUTER)).unwrap();
    let entries = chain_entries(&tree, first);
    let names: Vec<Option<&str>> = entries.iter().map(|entry| tree.field(entry).map(|field| field.name)).collect();
    assert_eq!(names, vec![Some("name"), Some("inner"), Some("target"), Some("delta"), Some("ratio"), None]);
    match entries[0].value {
        Node::Str(span) => assert_eq!(tree.str(span), "hi"),
        other => panic!("{other:?}"),
    }
    assert_eq!(entries[2].value, Node::Reference(42));
    assert_eq!(entries[3].value, Node::Int(-2));
    assert_eq!(entries[4].value, Node::Float(1.0f32.to_bits()));
    assert_eq!(entries[5].value, Node::RawVarint(7));
    match entries[1].value {
        Node::Message(inner) => {
            let counts: Vec<Node> = chain_entries(&tree, inner).iter().map(|entry| entry.value).collect();
            assert_eq!(counts, vec![Node::Uint(3), Node::Uint(128)]);
        }
        other => panic!("expected a message, got {other:?}"),
    }
}

#[test]
fn re_encodes_to_the_same_bytes() {
    let bytes = sample();
    let mut tree = Tree::new(schema());
    let first = tree.decode(&bytes, Some(OUTER)).unwrap();
    assert_eq!(tree.size(first), bytes.len());
    let mut out = Vec::new();
    tree.encode(first, &mut out).unwrap();
    assert_eq!(out, bytes);
}

#[test]
fn schemaless_decode_keeps_everything_raw() {
    let bytes = sample();
    let mut tree = Tree::new(schema());
    let first = tree.decode(&bytes, None).unwrap();
    assert!(chain_entries(&tree, first).iter().all(|entry| tree.field(entry).is_none()));
    let mut out = Vec::new();
    tree.encode(first, &mut out).unwrap();
    assert_eq!(out, bytes);
}

#[test]
fn empty_message_decodes_to_no_entry() {
    let mut tree = Tree::new(schema());
    assert_eq!(tree.decode(&[], Some(OUTER)), Ok(NONE));
    assert_eq!(tree.size(NONE), 0);
    let mut out = vec![9u8];
    tree.encode(NONE, &mut out).unwrap();
    assert_eq!(out, vec![9u8]);
}

#[test]
fn truncated_message_is_a_wire_error() {
    let mut tree = Tree::new(schema());
    assert_eq!(tree.decode(&[0x0A, 0x05, b'h'], None), Err(TreeError::Wire(ProtobufError::Truncated { offset: 0 })));
}

#[test]
fn overlong_varint_re_encodes_shortest() {
    // field 1, varint 1 written in two bytes
    let mut tree = Tree::new(schema());
    let first = tree.decode(&[0x08, 0x81, 0x00], None).unwrap();
    let mut out = Vec::new();
    tree.encode(first, &mut out).unwrap();
    assert_eq!(out, vec![0x08, 0x01]);
}

#[test]
fn group_is_kept_as_bytes() {
    // field 1 group holding field 2 varint 5, then its end tag
    let mut tree = Tree::new(schema());
    let first = tree.decode(&[0x0B, 0x10, 0x05, 0x0C], None).unwrap();
    assert_eq!(tree.entries[first as usize].value, Node::RawBytes(Span { start: 0, length: 2 }));
    let mut out = Vec::new();
    tree.encode(first, &mut out).unwrap();
    assert_eq!(out, vec![0x0A, 0x02, 0x10, 0x05]);
}

#[test]
fn nested_message_that_does_not_decode_stays_raw() {
    // Outer.inner holding a truncated field
    let mut tree = Tree::new(schema());
    let first = tree.decode(&[0x12, 0x02, 0x0A, 0x05], Some(OUTER)).unwrap();
    assert_eq!(tree.entries.len(), 1);
    assert_eq!(tree.entries[first as usize].value, Node::RawBytes(Span { start: 0, length: 2 }));
    let mut out = Vec::new();
    tree.encode(first, &mut out).unwrap();
    assert_eq!(out, vec![0x12, 0x02, 0x0A, 0x05]);
}

#[test]
fn invalid_utf8_string_stays_raw() {
    let mut tree = Tree::new(schema());
    let first = tree.decode(&[0x0A, 0x01, 0xFF], Some(OUTER)).unwrap();
    assert_eq!(tree.entries[first as usize].value, Node::RawBytes(Span { start: 0, length: 1 }));
}

#[test]
fn packed_fixed32_splits_into_entries() {
    let inner: &'static [Field] = Box::leak(
        vec![Field { number: 1, name: "values", kind: Kind::Fixed32, repeated: true, packed: true }].into_boxed_slice(),
    );
    let schema: &'static [Message] = Box::leak(vec![Message { name: "Values", fields: inner }].into_boxed_slice());
    let mut tree = Tree::new(schema);
    let bytes = [0x0A, 0x08, 1, 0, 0, 0, 2, 0, 0, 0];
    let first = tree.decode(&bytes, Some(0)).unwrap();
    let values: Vec<Node> = chain_entries(&tree, first).iter().map(|entry| entry.value).collect();
    assert_eq!(values, vec![Node::Fixed32(1), Node::Fixed32(2)]);
    assert_eq!(tree.size(first), bytes.len());
    let mut out = Vec::new();
    tree.encode(first, &mut out).unwrap();
    assert_eq!(out, bytes.to_vec());
}

#[test]
fn built_chain_encodes_and_mismatch_is_refused() {
    let mut tree = Tree::new(schema());
    let mut chain = Chain::new();
    tree.push_unknown(&mut chain, 3, Node::RawVarint(300)).unwrap();
    let span = tree.push_bytes(b"ab").unwrap();
    assert_eq!(span, Span { start: 0, length: 2 });
    tree.push_unknown(&mut chain, 4, Node::RawBytes(span)).unwrap();
    assert_eq!(chain.first, 0);
    assert_eq!(chain.last, 1);
    assert_eq!(tree.entries[0].next, 1);
    let mut out = Vec::new();
    tree.encode(chain.first, &mut out).unwrap();
    assert_eq!(out, vec![0x18, 0xAC, 0x02, 0x22, 0x02, b'a', b'b']);
    assert_eq!(tree.size(chain.first), 7);

    // A reference written as a packed element cannot be encoded.
    let mut packed = Chain::new();
    let field = Field { number: 7, name: "refs", kind: Kind::Uint, repeated: true, packed: true };
    tree.push_known(&mut packed, 0, 0, field, 7, Node::Reference(1)).unwrap();
    let mut out = Vec::new();
    assert_eq!(tree.encode(packed.first, &mut out), Err(TreeError::KindMismatch { number: 7 }));
}

#[test]
fn entries_carry_their_schema_slot() {
    let unknown = Entry::unknown(6, Node::RawVarint(7));
    assert_eq!(unknown.message, NO_SCHEMA);
    assert_eq!(unknown.next, NONE);
    let field = Field { number: 4, name: "delta", kind: Kind::Sint, repeated: false, packed: false };
    let known = Entry::known(4, 1, 3, field, Node::Int(-2));
    assert_eq!((known.message, known.slot, known.flags), (1, 3, 2));
}

#[test]
fn described_message_with_a_bad_field_is_a_wire_error() {
    let mut tree = Tree::new(schema());
    // name "hi", then a field with wire type 7
    assert_eq!(
        tree.decode(&[0x0A, 0x02, b'h', b'i', 0x0F], Some(OUTER)),
        Err(TreeError::Wire(ProtobufError::BadWireType { offset: 4, wire_type: 7 }))
    );
}

#[test]
fn messages_are_found_by_name_and_fields_by_number() {
    let schema = schema();
    let outer = find_message(schema, "Outer").unwrap();
    assert_eq!(outer.name, "Outer");
    assert!(find_message(schema, "Missing").is_none());
    assert_eq!(outer.field(3).map(|field| field.name), Some("target"));
    assert!(outer.field(9).is_none());
    assert_eq!(outer.slot(4), Some(3));
}

#[test]
fn packed_field_that_does_not_unpack_cannot_be_re_encoded() {
    // Inner.count is a packed uint; 0x80 starts a varint that never ends.
    let mut tree = Tree::new(schema());
    let first = tree.decode(&[0x0A, 0x01, 0x80], Some(0)).unwrap();
    assert_eq!(tree.entries[first as usize].value, Node::RawBytes(Span { start: 0, length: 1 }));
    let mut out = Vec::new();
    assert_eq!(tree.encode(first, &mut out), Err(TreeError::KindMismatch { number: 1 }));
}
