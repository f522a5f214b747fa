use postcard_forth::node::{FieldDescriptor, Leaf, Node};
use postcard_forth::scalar::{deserialize_scalar, Prim, Scalar};
use postcard_forth::value::Value;
use postcard_forth::walk::{decode_walk, encode_walk};
use postcard_forth::{DeserStream, SerStream, Serialize};

fn prim(p: Prim) -> Node {
    Node::Leaf(Leaf::Prim(p))
}

fn two_variants() -> Node {
    Node::Leaf(Leaf::Union(vec![
        Node::Record(vec![]),
        Node::Record(vec![FieldDescriptor { offset: 0, node: prim(Prim::Bool) }]),
    ]))
}

#[test]
fn a_tag_that_names_no_variant_is_rejected() {
    let node = two_variants();
    for tag in [2u8, 3, 0x7F] {
        let bytes = [tag, 0x00];
        let mut d = DeserStream::from(bytes.as_slice());
        assert!(decode_walk(&mut d, &node).is_err());
    }
    let mut d = DeserStream::from([0x80u8, 0x80, 0x80, 0x80, 0x10].as_slice());
    assert!(decode_walk(&mut d, &node).is_err());
    let mut d = DeserStream::from([0x01u8, 0x01].as_slice());
    assert!(decode_walk(&mut d, &node).is_ok());
    assert_eq!(d.remain(), 0);
    let mut d = DeserStream::from([0x00u8].as_slice());
    assert!(decode_walk(&mut d, &node).is_ok());
}

#[test]
fn a_bad_payload_inside_a_union_is_rejected() {
    let node = two_variants();
    let mut d = DeserStream::from([0x01u8, 0x02].as_slice());
    assert!(decode_walk(&mut d, &node).is_err());
    let mut d = DeserStream::from([0x01u8].as_slice());
    assert!(decode_walk(&mut d, &node).is_err());
}

#[test]
fn a_bad_item_aborts_the_sequence_around_it() {
    let node = Node::Leaf(Leaf::List(Box::new(prim(Prim::Bool))));
    let mut d = DeserStream::from([0x03u8, 0x01, 0x02, 0x00].as_slice());
    assert!(decode_walk(&mut d, &node).is_err());
    let node = Node::Leaf(Leaf::Array(Box::new(prim(Prim::Bool)), 2));
    let mut d = DeserStream::from([0x01u8, 0x05].as_slice());
    assert!(decode_walk(&mut d, &node).is_err());
    let node = Node::Leaf(Leaf::Text);
    let mut d = DeserStream::from([0x02u8, 0xC3, 0x28].as_slice());
    assert!(decode_walk(&mut d, &node).is_err());
}

#[test]
fn scalars_of_every_type_round_trip() {
    let all = [
        Scalar::Bool(true),
        Scalar::U8(200),
        Scalar::U16(16384),
        Scalar::U32(u32::MAX),
        Scalar::U64(u64::MAX - 1),
        Scalar::U128(u128::MAX),
        Scalar::Usize(usize::MAX),
        Scalar::I8(-128),
        Scalar::I16(-129),
        Scalar::I32(i32::MIN),
        Scalar::I64(i64::MAX),
        Scalar::I128(i128::MIN),
        Scalar::Isize(-1),
        Scalar::F32(1.5f32.to_bits()),
        Scalar::F64(f64::NAN.to_bits()),
    ];
    for x in all {
        let mut buf = [0u8; 32];
        let mut s = SerStream::from(buf.as_mut_slice());
        x.serialize(&mut s).unwrap();
        let wire = s.written().to_vec();
        let mut d = DeserStream::from(wire.as_slice());
        assert_eq!(deserialize_scalar(x.kind(), &mut d), Ok(x));
        assert_eq!(d.remain(), 0);
        for k in 0..wire.len() {
            let mut d = DeserStream::from(&wire[..k]);
            assert_eq!(deserialize_scalar(x.kind(), &mut d), Err(()));
        }
    }
    assert_eq!(Scalar::U16(3).kind(), Prim::U16);
    assert_eq!(Scalar::F64(3).kind(), Prim::F64);
}

#[test]
fn a_described_value_cut_short_does_not_read_and_too_small_a_buffer_does_not_take_it() {
    let node = Node::Record(vec![
        FieldDescriptor { offset: 1, node: Node::Leaf(Leaf::Text) },
        FieldDescriptor { offset: 0, node: Node::Leaf(Leaf::List(Box::new(prim(Prim::I16)))) },
        FieldDescriptor { offset: 2, node: two_variants() },
    ]);
    let value = Value::Record(vec![
        Value::List(vec![Value::Scalar(Scalar::I16(-129)), Value::Scalar(Scalar::I16(5))]),
        Value::Text("ab".to_string()),
        Value::Union(1, vec![Value::Scalar(Scalar::Bool(true))]),
    ]);
    let wire = vec![2, b'a', b'b', 2, 0x81, 0x02, 10, 1, 1];
    let mut buf = [0u8; 9];
    let mut s = SerStream::from(buf.as_mut_slice());
    assert_eq!(encode_walk(&mut s, &value, &node), Ok(()));
    assert_eq!(s.remain(), 0);
    assert_eq!(buf.to_vec(), wire);
    for cap in 0..wire.len() {
        let mut buf = vec![0u8; cap];
        let mut s = SerStream::from(buf.as_mut_slice());
        assert_eq!(encode_walk(&mut s, &value, &node), Err(()));
        let used = cap - s.remain();
        assert_eq!(&buf[..used], &wire[..used]);
    }
    for k in 0..wire.len() {
        let mut d = DeserStream::from(&wire[..k]);
        assert!(decode_walk(&mut d, &node).is_err());
    }
    let mut d = DeserStream::from(wire.as_slice());
    assert!(decode_walk(&mut d, &node).is_ok());
    assert_eq!(d.remain(), 0);
}
