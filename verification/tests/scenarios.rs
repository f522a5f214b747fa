use postcard_forth::node::{FieldDescriptor, Leaf, Node};
use postcard_forth::scalar::{Prim, Scalar};
use postcard_forth::value::Value;
use postcard_forth::walk::{accepts, decode, decode_walk, encode, encode_walk};
use postcard_forth::{DeserStream, Deserialize, SerStream, Serialize};

fn prim(p: Prim) -> Node {
    Node::Leaf(Leaf::Prim(p))
}

fn field(offset: usize, node: Node) -> FieldDescriptor {
    FieldDescriptor { offset, node }
}

fn pack_node() -> Node {
    Node::Record(vec![
        field(0, prim(Prim::U8)),
        field(1, prim(Prim::U16)),
        field(2, prim(Prim::U32)),
        field(3, prim(Prim::I8)),
        field(4, prim(Prim::I16)),
        field(5, prim(Prim::I32)),
    ])
}

fn pack_slots() -> Vec<Value> {
    vec![
        Value::Scalar(Scalar::U8(1)),
        Value::Scalar(Scalar::U16(256)),
        Value::Scalar(Scalar::U32(65536)),
        Value::Scalar(Scalar::I8(-1)),
        Value::Scalar(Scalar::I16(-129)),
        Value::Scalar(Scalar::I32(-32769)),
    ]
}

fn with_list_node() -> Node {
    let mut fields = match pack_node() {
        Node::Record(fields) => fields,
        Node::Leaf(_) => unreachable!(),
    };
    fields.push(field(6, Node::Leaf(Leaf::List(Box::new(prim(Prim::U16))))));
    Node::Record(fields)
}

fn with_list_slots() -> Vec<Value> {
    let mut slots = pack_slots();
    slots.push(Value::List(vec![
        Value::Scalar(Scalar::U16(1)),
        Value::Scalar(Scalar::U16(2)),
        Value::Scalar(Scalar::U16(3)),
        Value::Scalar(Scalar::U16(4)),
    ]));
    slots
}

fn dolsot_node() -> Node {
    Node::Leaf(Leaf::Union(vec![
        Node::Record(vec![field(0, with_list_node())]),
        Node::Record(vec![field(0, with_list_node())]),
        Node::Record(vec![field(0, prim(Prim::U32))]),
        Node::Record(vec![]),
        Node::Record(vec![field(0, prim(Prim::U32)), field(1, prim(Prim::U8))]),
    ]))
}

fn encode_to_vec(value: &Value, node: &Node) -> Vec<u8> {
    let mut buf = [0u8; 64];
    let mut sers = SerStream::from(buf.as_mut_slice());
    assert!(node.check());
    assert!(accepts(node, value));
    encode_walk(&mut sers, value, node).unwrap();
    let used = 64 - sers.remain();
    assert_eq!(sers.written().len(), used);
    buf[..used].to_vec()
}

fn decode_all(bytes: &[u8], node: &Node) -> Value {
    let mut desers = DeserStream::from(bytes);
    assert!(node.check());
    let out = decode_walk(&mut desers, node).unwrap();
    assert_eq!(desers.remain(), 0);
    out
}

#[test]
fn primitive_pack_encodes_to_twelve_bytes() {
    let value = Value::Record(pack_slots());
    let bytes = encode_to_vec(&value, &pack_node());
    assert_eq!(
        bytes,
        vec![0x01, 0x80, 0x02, 0x80, 0x80, 0x04, 0xFF, 0x81, 0x02, 0x81, 0x80, 0x04]
    );
    assert_eq!(bytes.len(), 12);
    let back = decode_all(&bytes, &pack_node());
    assert_eq!(back, value);
}

#[test]
fn record_with_sequence_appends_length_and_items() {
    let value = Value::Record(with_list_slots());
    let bytes = encode_to_vec(&value, &with_list_node());
    assert_eq!(
        bytes,
        vec![
            0x01, 0x80, 0x02, 0x80, 0x80, 0x04, 0xFF, 0x81, 0x02, 0x81, 0x80, 0x04, 0x04, 0x01,
            0x02, 0x03, 0x04
        ]
    );
    assert_eq!(bytes.len(), 17);
    let back = decode_all(&bytes, &with_list_node());
    assert_eq!(back, value);
}

#[test]
fn union_newtype_variant_is_tag_then_payload() {
    let value = Value::Union(1, vec![Value::Record(with_list_slots())]);
    let bytes = encode_to_vec(&value, &dolsot_node());
    assert_eq!(
        bytes,
        vec![
            0x01, 0x01, 0x80, 0x02, 0x80, 0x80, 0x04, 0xFF, 0x81, 0x02, 0x81, 0x80, 0x04, 0x04,
            0x01, 0x02, 0x03, 0x04
        ]
    );
    assert_eq!(bytes.len(), 18);
    let back = decode_all(&bytes, &dolsot_node());
    assert_eq!(back, value);
}

#[test]
fn union_unit_variant_is_one_byte() {
    let value = Value::Union(3, vec![]);
    let bytes = encode_to_vec(&value, &dolsot_node());
    assert_eq!(bytes, vec![0x03]);
    let back = decode_all(&bytes, &dolsot_node());
    assert_eq!(back, value);
}

#[test]
fn union_struct_variant_round_trips() {
    let value = Value::Union(
        4,
        vec![Value::Scalar(Scalar::U32(300)), Value::Scalar(Scalar::U8(7))],
    );
    let bytes = encode_to_vec(&value, &dolsot_node());
    assert_eq!(bytes, vec![0x04, 0xAC, 0x02, 0x07]);
    let back = decode_all(&bytes, &dolsot_node());
    assert_eq!(back, value);
}

#[test]
fn option_present_and_absent() {
    let mut buf = [0u8; 8];
    let mut sers = SerStream::from(buf.as_mut_slice());
    Some(300u32).serialize(&mut sers).unwrap();
    assert_eq!(sers.written(), &[0x01, 0xAC, 0x02]);

    let mut buf = [0u8; 8];
    let mut sers = SerStream::from(buf.as_mut_slice());
    None::<u32>.serialize(&mut sers).unwrap();
    assert_eq!(sers.written(), &[0x00]);

    let mut desers = DeserStream::from([0x01u8, 0xAC, 0x02].as_slice());
    assert_eq!(Option::<u32>::deserialize(&mut desers), Ok(Some(300)));
    assert_eq!(desers.remain(), 0);
    let mut desers = DeserStream::from([0x00u8].as_slice());
    assert_eq!(Option::<u32>::deserialize(&mut desers), Ok(None));
    assert_eq!(desers.remain(), 0);
}

#[test]
fn option_through_the_walker() {
    let node = Node::Leaf(Leaf::Optional(Box::new(prim(Prim::U32))));
    let some = Value::Optional(Some(Box::new(Value::Scalar(Scalar::U32(300)))));
    assert_eq!(encode_to_vec(&some, &node), vec![0x01, 0xAC, 0x02]);
    let none = Value::Optional(None);
    assert_eq!(encode_to_vec(&none, &node), vec![0x00]);
    assert_eq!(decode_all(&[0x01, 0xAC, 0x02], &node), some);
    assert_eq!(decode_all(&[0x00], &node), none);
}

#[test]
fn varint_boundary_of_u16() {
    let mut buf = [0u8; 8];
    let mut sers = SerStream::from(buf.as_mut_slice());
    128u16.serialize(&mut sers).unwrap();
    assert_eq!(sers.written(), &[0x80, 0x01]);

    let mut buf = [0u8; 8];
    let mut sers = SerStream::from(buf.as_mut_slice());
    127u16.serialize(&mut sers).unwrap();
    assert_eq!(sers.written(), &[0x7F]);
}

#[test]
fn fields_go_out_in_list_order_whatever_their_slots() {
    // In memory: c, f, b, e, a, d. On the wire: a, b, c, d, e, f.
    let node = Node::Record(vec![
        field(4, prim(Prim::U8)),
        field(2, prim(Prim::U16)),
        field(0, prim(Prim::U32)),
        field(5, prim(Prim::I8)),
        field(3, prim(Prim::I16)),
        field(1, prim(Prim::I32)),
    ]);
    let value = Value::Record(vec![
        Value::Scalar(Scalar::U32(65536)),
        Value::Scalar(Scalar::I32(-32769)),
        Value::Scalar(Scalar::U16(256)),
        Value::Scalar(Scalar::I16(-129)),
        Value::Scalar(Scalar::U8(1)),
        Value::Scalar(Scalar::I8(-1)),
    ]);
    let bytes = encode_to_vec(&value, &node);
    assert_eq!(
        bytes,
        vec![0x01, 0x80, 0x02, 0x80, 0x80, 0x04, 0xFF, 0x81, 0x02, 0x81, 0x80, 0x04]
    );
    let back = decode_all(&bytes, &node);
    assert_eq!(back, value);
}

#[test]
fn empty_record_takes_no_bytes() {
    let node = Node::Record(vec![]);
    let value = Value::Record(vec![]);
    assert_eq!(encode_to_vec(&value, &node), Vec::<u8>::new());
    assert_eq!(decode_all(&[], &node), value);
}

#[test]
fn array_through_the_walker() {
    let node = Node::Leaf(Leaf::Array(Box::new(prim(Prim::U16)), 3));
    let value = Value::Array(vec![
        Value::Scalar(Scalar::U16(1)),
        Value::Scalar(Scalar::U16(128)),
        Value::Scalar(Scalar::U16(3)),
    ]);
    let bytes = encode_to_vec(&value, &node);
    assert_eq!(bytes, vec![0x01, 0x80, 0x01, 0x03]);
    assert_eq!(decode_all(&bytes, &node), value);
}

#[test]
fn text_through_the_walker() {
    let node = Node::Leaf(Leaf::Text);
    let value = Value::Text("héllo".to_string());
    let bytes = encode_to_vec(&value, &node);
    assert_eq!(bytes, vec![0x06, b'h', 0xC3, 0xA9, b'l', b'l', b'o']);
    assert_eq!(decode_all(&bytes, &node), value);
}

#[test]
fn a_value_of_another_type_is_refused_and_nothing_is_written() {
    let node = pack_node();
    let wrong = Value::Record(vec![Value::Scalar(Scalar::U8(1))]);
    assert!(!accepts(&node, &wrong));
    let mut buf = [0xEEu8; 16];
    let mut sers = SerStream::from(buf.as_mut_slice());
    assert_eq!(encode(&mut sers, &wrong, &node), Err(()));
    assert_eq!(sers.remain(), 16);
    assert_eq!(buf, [0xEEu8; 16]);

    let swapped = Value::Scalar(Scalar::U16(1));
    assert!(!accepts(&prim(Prim::U32), &swapped));
    assert!(accepts(&prim(Prim::U16), &swapped));
}

#[test]
fn a_checked_encode_of_a_right_value_writes_it() {
    let value = Value::Record(pack_slots());
    let mut buf = [0u8; 16];
    let mut sers = SerStream::from(buf.as_mut_slice());
    assert_eq!(encode(&mut sers, &value, &pack_node()), Ok(()));
    assert_eq!(sers.remain(), 4);
}

#[test]
fn an_unsound_description_is_refused_and_nothing_is_read() {
    let twice = Node::Record(vec![field(0, prim(Prim::U8)), field(0, prim(Prim::U8))]);
    assert!(!twice.check());
    let beyond = Node::Record(vec![field(1, prim(Prim::U8))]);
    assert!(!beyond.check());
    let bare = Node::Leaf(Leaf::Union(vec![prim(Prim::U8)]));
    assert!(!bare.check());
    let nested = Node::Leaf(Leaf::List(Box::new(Node::Record(vec![field(
        3,
        prim(Prim::U8),
    )]))));
    assert!(!nested.check());

    let bytes = [1u8, 2, 3];
    let mut desers = DeserStream::from(bytes.as_slice());
    assert!(decode(&mut desers, &twice).is_err());
    assert_eq!(desers.remain(), 3);

    assert!(pack_node().check());
    assert!(dolsot_node().check());
    let mut desers = DeserStream::from(bytes.as_slice());
    let out = decode(&mut desers, &prim(Prim::U8)).unwrap();
    assert_eq!(out, Value::Scalar(Scalar::U8(1)));
    assert_eq!(desers.remain(), 2);
}

#[test]
fn a_record_description_pairs_slots_with_types_in_declaration_order() {
    let kinds = vec![prim(Prim::U8), prim(Prim::U16), prim(Prim::U32)];
    let node = postcard_forth::node::record_node(&vec![2, 0, 1], kinds).unwrap();
    match &node {
        Node::Record(fields) => {
            let offsets: Vec<usize> = fields.iter().map(|f| f.offset).collect();
            assert_eq!(offsets, vec![2, 0, 1]);
            assert!(matches!(fields[0].node, Node::Leaf(Leaf::Prim(Prim::U8))));
            assert!(matches!(fields[1].node, Node::Leaf(Leaf::Prim(Prim::U16))));
            assert!(matches!(fields[2].node, Node::Leaf(Leaf::Prim(Prim::U32))));
        }
        Node::Leaf(_) => panic!("a record description is a record"),
    }
    assert!(node.check());
    let value = Value::Record(vec![
        Value::Scalar(Scalar::U16(256)),
        Value::Scalar(Scalar::U32(65536)),
        Value::Scalar(Scalar::U8(1)),
    ]);
    assert_eq!(encode_to_vec(&value, &node), vec![0x01, 0x80, 0x02, 0x80, 0x80, 0x04]);
    assert!(postcard_forth::node::record_node(&vec![0], vec![]).is_none());
    assert!(postcard_forth::node::record_node(&vec![], vec![]).unwrap().check());
    assert!(!postcard_forth::node::record_node(&vec![1, 1], vec![prim(Prim::U8), prim(Prim::U8)])
        .unwrap()
        .check());
}

#[test]
fn reversing_puts_the_last_first() {
    assert_eq!(postcard_forth::node::reversed(vec![1, 2, 3]), vec![3, 2, 1]);
    assert_eq!(postcard_forth::node::reversed(Vec::<u8>::new()), Vec::<u8>::new());
    let node = postcard_forth::node::ordered_record(vec![prim(Prim::Bool), prim(Prim::I8)]);
    assert_eq!(
        node,
        Node::Record(vec![field(0, prim(Prim::Bool)), field(1, prim(Prim::I8))])
    );
}
