use postcard_forth::impls::bits::{F32Bits, F64Bits};
use postcard_forth::{DeserStream, Deserialize, SerStream, Serialize};

fn bytes_of<T: Serialize>(value: &T) -> Vec<u8> {
    let mut buf = [0u8; 256];
    let mut s = SerStream::from(buf.as_mut_slice());
    value.serialize(&mut s).unwrap();
    s.written().to_vec()
}

fn back<T: Deserialize>(bytes: &[u8]) -> Result<T, ()> {
    let mut d = DeserStream::from(bytes);
    let out = T::deserialize(&mut d)?;
    assert_eq!(d.remain(), 0);
    Ok(out)
}

#[test]
fn every_byte_sized_value_round_trips() {
    for v in 0..=u8::MAX {
        assert_eq!(bytes_of(&v), vec![v]);
        assert_eq!(back::<u8>(&[v]), Ok(v));
    }
    for v in i8::MIN..=i8::MAX {
        assert_eq!(bytes_of(&v), vec![v as u8]);
        assert_eq!(back::<i8>(&[v as u8]), Ok(v));
    }
    assert_eq!(bytes_of(&-1i8), vec![0xFF]);
}

#[test]
fn every_i16_round_trips() {
    for v in i16::MIN..=i16::MAX {
        assert_eq!(back::<i16>(&bytes_of(&v)), Ok(v));
    }
    assert_eq!(bytes_of(&-129i16), vec![0x81, 0x02]);
    assert_eq!(bytes_of(&-32769i32), vec![0x81, 0x80, 0x04]);
}

#[test]
fn signed_boundaries_round_trip() {
    for v in [0i32, 1, -1, i32::MAX, i32::MIN, i32::MAX - 1, 63, 64, -64, -65, 8191, 8192] {
        assert_eq!(back::<i32>(&bytes_of(&v)), Ok(v));
        assert_eq!(back::<i64>(&bytes_of(&(v as i64))), Ok(v as i64));
        assert_eq!(back::<i128>(&bytes_of(&(v as i128))), Ok(v as i128));
        assert_eq!(back::<isize>(&bytes_of(&(v as isize))), Ok(v as isize));
    }
    for v in [i64::MAX, i64::MIN, i64::MAX - 1] {
        assert_eq!(back::<i64>(&bytes_of(&v)), Ok(v));
    }
    for v in [i128::MAX, i128::MIN, i128::MAX - 1] {
        assert_eq!(back::<i128>(&bytes_of(&v)), Ok(v));
    }
    for v in [isize::MAX, isize::MIN, 0, -1] {
        assert_eq!(back::<isize>(&bytes_of(&v)), Ok(v));
    }
    assert_eq!(bytes_of(&-1isize), vec![0x01]);
    assert_eq!(bytes_of(&usize::MAX).len(), (usize::BITS as usize + 6) / 7);
    assert_eq!(back::<usize>(&bytes_of(&usize::MAX)), Ok(usize::MAX));
}

#[test]
fn bool_is_one_byte_and_only_zero_or_one() {
    assert_eq!(bytes_of(&true), vec![0x01]);
    assert_eq!(bytes_of(&false), vec![0x00]);
    assert_eq!(back::<bool>(&[0x00]), Ok(false));
    assert_eq!(back::<bool>(&[0x01]), Ok(true));
    for b in 2..=u8::MAX {
        let bytes = [b];
        let mut d = DeserStream::from(bytes.as_slice());
        assert_eq!(bool::deserialize(&mut d), Err(()));
    }
    let mut d = DeserStream::from([].as_slice());
    assert_eq!(bool::deserialize(&mut d), Err(()));
}

#[test]
fn unit_takes_no_bytes() {
    assert_eq!(bytes_of(&()), Vec::<u8>::new());
    assert_eq!(back::<()>(&[]), Ok(()));
    let mut buf = [0u8; 0];
    let mut s = SerStream::from(buf.as_mut_slice());
    assert_eq!(().serialize(&mut s), Ok(()));
}

#[test]
fn sequence_is_length_then_items() {
    let v: Vec<u16> = vec![1, 2, 3, 4];
    assert_eq!(bytes_of(&v), vec![0x04, 0x01, 0x02, 0x03, 0x04]);
    assert_eq!(back::<Vec<u16>>(&[0x04, 0x01, 0x02, 0x03, 0x04]), Ok(v));
    let empty: Vec<u32> = vec![];
    assert_eq!(bytes_of(&empty), vec![0x00]);
    assert_eq!(back::<Vec<u32>>(&[0x00]), Ok(empty));
    let nested: Vec<Vec<u8>> = vec![vec![1], vec![], vec![2, 3]];
    assert_eq!(bytes_of(&nested), vec![3, 1, 1, 0, 2, 2, 3]);
    assert_eq!(back::<Vec<Vec<u8>>>(&[3, 1, 1, 0, 2, 2, 3]), Ok(nested));
    let long: Vec<u8> = (0..200).map(|i| i as u8).collect();
    let bytes = bytes_of(&long);
    assert_eq!(&bytes[..2], &[0xC8, 0x01]);
    assert_eq!(bytes.len(), 202);
    assert_eq!(back::<Vec<u8>>(&bytes), Ok(long));
}

#[test]
fn a_sequence_that_promises_more_than_it_holds_is_rejected() {
    let mut d = DeserStream::from([0x03u8, 0x01, 0x02].as_slice());
    assert_eq!(Vec::<u8>::deserialize(&mut d), Err(()));
    let mut d = DeserStream::from([0xFFu8, 0xFF, 0xFF, 0xFF, 0x0F, 0x01].as_slice());
    assert_eq!(Vec::<u16>::deserialize(&mut d), Err(()));
    let mut d = DeserStream::from([0x02u8, 0x00, 0x02].as_slice());
    assert_eq!(Vec::<bool>::deserialize(&mut d), Err(()));
}

#[test]
fn array_is_items_with_no_length() {
    let a: [u16; 3] = [1, 128, 3];
    assert_eq!(bytes_of(&a), vec![0x01, 0x80, 0x01, 0x03]);
    assert_eq!(back::<[u16; 3]>(&[0x01, 0x80, 0x01, 0x03]), Ok(a));
    assert_eq!(back::<[u8; 0]>(&[]), Ok([]));
    let mut d = DeserStream::from([0x01u8, 0x02].as_slice());
    assert_eq!(<[u8; 3]>::deserialize(&mut d), Err(()));
    let grid: [[i8; 2]; 2] = [[1, -1], [2, -2]];
    assert_eq!(bytes_of(&grid), vec![1, 0xFF, 2, 0xFE]);
    assert_eq!(back::<[[i8; 2]; 2]>(&[1, 0xFF, 2, 0xFE]), Ok(grid));
}

#[test]
fn option_is_presence_then_payload() {
    assert_eq!(bytes_of(&Some(300u32)), vec![0x01, 0xAC, 0x02]);
    assert_eq!(bytes_of(&None::<u32>), vec![0x00]);
    assert_eq!(back::<Option<u32>>(&[0x01, 0xAC, 0x02]), Ok(Some(300)));
    assert_eq!(back::<Option<u32>>(&[0x00]), Ok(None));
    let mut d = DeserStream::from([0x02u8, 0x00].as_slice());
    assert_eq!(Option::<u8>::deserialize(&mut d), Err(()));
    let mut d = DeserStream::from([0x01u8].as_slice());
    assert_eq!(Option::<u8>::deserialize(&mut d), Err(()));
    assert_eq!(bytes_of(&Some(Some(false))), vec![1, 1, 0]);
    assert_eq!(back::<Option<Option<bool>>>(&[1, 0]), Ok(Some(None)));
}

#[test]
fn text_is_length_then_utf8() {
    let s = "héllo".to_string();
    assert_eq!(bytes_of(&s), vec![0x06, b'h', 0xC3, 0xA9, b'l', b'l', b'o']);
    assert_eq!(back::<String>(&[0x06, b'h', 0xC3, 0xA9, b'l', b'l', b'o']), Ok(s));
    assert_eq!(bytes_of(&String::new()), vec![0x00]);
    assert_eq!(back::<String>(&[0x00]), Ok(String::new()));
}

#[test]
fn text_that_is_not_utf8_is_rejected() {
    let mut d = DeserStream::from([0x02u8, 0xC3, 0x28].as_slice());
    assert_eq!(String::deserialize(&mut d), Err(()));
    let mut d = DeserStream::from([0x01u8, 0xFF].as_slice());
    assert_eq!(String::deserialize(&mut d), Err(()));
    let mut d = DeserStream::from([0x03u8, b'a', b'b'].as_slice());
    assert_eq!(String::deserialize(&mut d), Err(()));
    assert_eq!(d.remain(), 2);
}

#[test]
fn tuples_are_their_fields_in_order() {
    assert_eq!(bytes_of(&(7u8,)), vec![7]);
    assert_eq!(back::<(u8,)>(&[7]), Ok((7,)));
    assert_eq!(bytes_of(&(1u8, 256u16)), vec![0x01, 0x80, 0x02]);
    assert_eq!(back::<(u8, u16)>(&[0x01, 0x80, 0x02]), Ok((1, 256)));
    let six = (1u8, 256u16, 65536u32, -1i8, -129i16, -32769i32);
    let wire = vec![1, 128, 2, 128, 128, 4, 255, 129, 2, 129, 128, 4];
    assert_eq!(bytes_of(&six), wire);
    assert_eq!(back::<(u8, u16, u32, i8, i16, i32)>(&wire), Ok(six));
    let three = (true, Some(2u8), vec![3u8]);
    assert_eq!(bytes_of(&three), vec![1, 1, 2, 1, 3]);
    assert_eq!(back::<(bool, Option<u8>, Vec<u8>)>(&[1, 1, 2, 1, 3]), Ok(three));
    let four = (1u8, 2u8, 3u8, 4u8);
    assert_eq!(back::<(u8, u8, u8, u8)>(&bytes_of(&four)), Ok(four));
    let five = (1u8, 2u16, 3u32, 4u64, 5u128);
    assert_eq!(bytes_of(&five), vec![1, 2, 3, 4, 5]);
    assert_eq!(back::<(u8, u16, u32, u64, u128)>(&[1, 2, 3, 4, 5]), Ok(five));
    let seven = (1u8, -1i16, 2u32, -2i64, true, (), "x".to_string());
    let wire = bytes_of(&seven);
    assert_eq!(wire, vec![1, 1, 2, 3, 1, 1, b'x']);
    assert_eq!(back::<(u8, i16, u32, i64, bool, (), String)>(&wire), Ok(seven));
}

#[test]
fn a_tuple_stops_at_the_first_field_that_fails() {
    let mut d = DeserStream::from([0x01u8, 0x02, 0x03].as_slice());
    assert_eq!(<(u8, bool, u8)>::deserialize(&mut d), Err(()));
    let mut buf = [0u8; 2];
    let mut s = SerStream::from(buf.as_mut_slice());
    assert_eq!((1u8, 65536u32).serialize(&mut s), Err(()));
}

#[test]
fn float_bits_go_out_least_significant_byte_first() {
    let one = F32Bits(1.0f32.to_bits());
    assert_eq!(bytes_of(&one), vec![0x00, 0x00, 0x80, 0x3F]);
    assert_eq!(back::<F32Bits>(&[0x00, 0x00, 0x80, 0x3F]), Ok(one));
    let x = F64Bits((-2.5f64).to_bits());
    assert_eq!(bytes_of(&x), (-2.5f64).to_le_bytes().to_vec());
    assert_eq!(back::<F64Bits>(&(-2.5f64).to_le_bytes()), Ok(x));
    for bits in [0u32, 1, u32::MAX, 0x7FC0_0001, 0x8000_0000, 0x1234_5678] {
        let v = F32Bits(bits);
        assert_eq!(bytes_of(&v), bits.to_le_bytes().to_vec());
        assert_eq!(back::<F32Bits>(&bits.to_le_bytes()), Ok(v));
    }
    for bits in [0u64, 1, u64::MAX, 0x7FF8_0000_0000_0001, 0x0123_4567_89AB_CDEF] {
        let v = F64Bits(bits);
        assert_eq!(bytes_of(&v), bits.to_le_bytes().to_vec());
        assert_eq!(back::<F64Bits>(&bits.to_le_bytes()), Ok(v));
    }
    let mut d = DeserStream::from([0u8, 0, 0].as_slice());
    assert_eq!(F32Bits::deserialize(&mut d), Err(()));
    assert_eq!(d.remain(), 3);
    let mut buf = [0xEEu8; 3];
    let mut s = SerStream::from(buf.as_mut_slice());
    assert_eq!(one.serialize(&mut s), Err(()));
    assert_eq!(buf, [0xEE; 3]);
}

#[test]
fn encoding_into_too_small_a_buffer_fails() {
    let value = (1u8, 256u16, 65536u32, -1i8, -129i16, -32769i32);
    for cap in 0..12 {
        let mut buf = vec![0u8; cap];
        let mut s = SerStream::from(buf.as_mut_slice());
        assert_eq!(value.serialize(&mut s), Err(()));
        assert!(s.remain() <= cap);
    }
    let mut buf = vec![0u8; 12];
    let mut s = SerStream::from(buf.as_mut_slice());
    assert_eq!(value.serialize(&mut s), Ok(()));
    assert_eq!(s.remain(), 0);
}

#[test]
fn decoding_from_too_short_a_buffer_fails() {
    let wire = [1u8, 128, 2, 128, 128, 4, 255, 129, 2, 129, 128, 4];
    for k in 0..wire.len() {
        let mut d = DeserStream::from(&wire[..k]);
        assert_eq!(<(u8, u16, u32, i8, i16, i32)>::deserialize(&mut d), Err(()));
    }
    let mut d = DeserStream::from(wire.as_slice());
    assert!(<(u8, u16, u32, i8, i16, i32)>::deserialize(&mut d).is_ok());
    assert_eq!(d.remain(), 0);
}
