use postcard_forth::de_varint::{
    de_zig_zag_i128, de_zig_zag_i16, de_zig_zag_i32, de_zig_zag_i64, max_of_last_byte,
    try_take_varint_u128, try_take_varint_u16, try_take_varint_u32, try_take_varint_u64,
    try_take_varint_usize,
};
use postcard_forth::ser_varint::{
    varint_max, varint_u128, varint_u16, varint_u32, varint_u64, varint_usize, zig_zag_i128,
    zig_zag_i16, zig_zag_i32, zig_zag_i64,
};
use postcard_forth::{DeserStream, SerStream};

fn enc_u16(v: u16) -> Vec<u8> {
    let mut buf = [0u8; 32];
    let mut s = SerStream::from(buf.as_mut_slice());
    varint_u16(v, &mut s).unwrap();
    s.written().to_vec()
}

fn enc_u32(v: u32) -> Vec<u8> {
    let mut buf = [0u8; 32];
    let mut s = SerStream::from(buf.as_mut_slice());
    varint_u32(v, &mut s).unwrap();
    s.written().to_vec()
}

fn enc_u64(v: u64) -> Vec<u8> {
    let mut buf = [0u8; 32];
    let mut s = SerStream::from(buf.as_mut_slice());
    varint_u64(v, &mut s).unwrap();
    s.written().to_vec()
}

fn enc_u128(v: u128) -> Vec<u8> {
    let mut buf = [0u8; 32];
    let mut s = SerStream::from(buf.as_mut_slice());
    varint_u128(v, &mut s).unwrap();
    s.written().to_vec()
}

fn enc_usize(v: usize) -> Vec<u8> {
    let mut buf = [0u8; 32];
    let mut s = SerStream::from(buf.as_mut_slice());
    varint_usize(v, &mut s).unwrap();
    s.written().to_vec()
}

fn min_len(v: u128) -> usize {
    let mut n = 1;
    let mut v = v >> 7;
    while v != 0 {
        n += 1;
        v >>= 7;
    }
    n
}

#[test]
fn varint_max_is_bits_over_seven_rounded_up() {
    assert_eq!(varint_max::<u8>(), 2);
    assert_eq!(varint_max::<u16>(), 3);
    assert_eq!(varint_max::<u32>(), 5);
    assert_eq!(varint_max::<u64>(), 10);
    assert_eq!(varint_max::<u128>(), 19);
    assert_eq!(varint_max::<usize>(), (usize::BITS as usize + 6) / 7);
}

#[test]
fn max_of_last_byte_is_the_bits_left_over() {
    assert_eq!(max_of_last_byte::<u16>(), 3);
    assert_eq!(max_of_last_byte::<u32>(), 15);
    assert_eq!(max_of_last_byte::<u64>(), 1);
    assert_eq!(max_of_last_byte::<u128>(), 3);
    assert_eq!(max_of_last_byte::<u8>(), 1);
}

#[test]
fn varint_exact_bytes() {
    assert_eq!(enc_u16(0), vec![0x00]);
    assert_eq!(enc_u16(1), vec![0x01]);
    assert_eq!(enc_u16(127), vec![0x7F]);
    assert_eq!(enc_u16(128), vec![0x80, 0x01]);
    assert_eq!(enc_u16(256), vec![0x80, 0x02]);
    assert_eq!(enc_u16(16383), vec![0xFF, 0x7F]);
    assert_eq!(enc_u16(16384), vec![0x80, 0x80, 0x01]);
    assert_eq!(enc_u16(u16::MAX), vec![0xFF, 0xFF, 0x03]);
    assert_eq!(enc_u32(65536), vec![0x80, 0x80, 0x04]);
    assert_eq!(enc_u32(300), vec![0xAC, 0x02]);
    assert_eq!(enc_u32(u32::MAX), vec![0xFF, 0xFF, 0xFF, 0xFF, 0x0F]);
    assert_eq!(
        enc_u64(u64::MAX),
        vec![0xFF, 0xFF, 0xFF, 0xFF, 0xFF, 0xFF, 0xFF, 0xFF, 0xFF, 0x01]
    );
    let mut top = vec![0xFFu8; 18];
    top.push(0x03);
    assert_eq!(enc_u128(u128::MAX), top);
    assert_eq!(enc_usize(300), vec![0xAC, 0x02]);
}

#[test]
fn the_encoder_emits_the_fewest_bytes() {
    for v in 0..=u16::MAX {
        assert_eq!(enc_u16(v).len(), min_len(v as u128));
    }
    let mut samples: Vec<u128> = vec![0, 1, u128::MAX, u128::MAX - 1];
    for k in 1..=18u32 {
        samples.push((1u128 << (7 * k)) - 1);
        samples.push(1u128 << (7 * k));
    }
    for v in samples {
        assert_eq!(enc_u128(v).len(), min_len(v));
        if v <= u64::MAX as u128 {
            assert_eq!(enc_u64(v as u64).len(), min_len(v));
        }
        if v <= u32::MAX as u128 {
            assert_eq!(enc_u32(v as u32).len(), min_len(v));
        }
    }
}

#[test]
fn every_u16_round_trips_over_exactly_its_bytes() {
    for v in 0..=u16::MAX {
        let bytes = enc_u16(v);
        let mut d = DeserStream::from(bytes.as_slice());
        assert_eq!(try_take_varint_u16(&mut d), Ok(v));
        assert_eq!(d.remain(), 0);
    }
}

#[test]
fn wide_boundaries_round_trip() {
    let mut samples: Vec<u128> = vec![0, 1, u128::MAX, u128::MAX - 1];
    for k in 1..=18u32 {
        samples.push((1u128 << (7 * k)) - 1);
        samples.push(1u128 << (7 * k));
    }
    for w in [16u32, 32, 64] {
        samples.push((1u128 << w) - 1);
        samples.push((1u128 << w) - 2);
    }
    for v in samples {
        let bytes = enc_u128(v);
        let mut d = DeserStream::from(bytes.as_slice());
        assert_eq!(try_take_varint_u128(&mut d), Ok(v));
        assert_eq!(d.remain(), 0);
        if v <= u64::MAX as u128 {
            let bytes = enc_u64(v as u64);
            let mut d = DeserStream::from(bytes.as_slice());
            assert_eq!(try_take_varint_u64(&mut d), Ok(v as u64));
            assert_eq!(d.remain(), 0);
        }
        if v <= u32::MAX as u128 {
            let bytes = enc_u32(v as u32);
            let mut d = DeserStream::from(bytes.as_slice());
            assert_eq!(try_take_varint_u32(&mut d), Ok(v as u32));
            assert_eq!(d.remain(), 0);
        }
        if v <= usize::MAX as u128 {
            let bytes = enc_usize(v as usize);
            let mut d = DeserStream::from(bytes.as_slice());
            assert_eq!(try_take_varint_usize(&mut d), Ok(v as usize));
            assert_eq!(d.remain(), 0);
        }
    }
}

#[test]
fn a_longer_spelling_of_a_value_is_read_too() {
    let mut d = DeserStream::from([0x80u8, 0x00, 0x55].as_slice());
    assert_eq!(try_take_varint_u16(&mut d), Ok(0));
    assert_eq!(d.remain(), 1);
    let mut d = DeserStream::from([0x81u8, 0x80, 0x00].as_slice());
    assert_eq!(try_take_varint_u32(&mut d), Ok(1));
    assert_eq!(d.remain(), 0);
}

#[test]
fn overflow_bits_in_the_last_byte_are_rejected() {
    let mut d = DeserStream::from([0xFFu8, 0xFF, 0x03].as_slice());
    assert_eq!(try_take_varint_u16(&mut d), Ok(u16::MAX));
    let mut d = DeserStream::from([0xFFu8, 0xFF, 0x04, 0x00].as_slice());
    assert_eq!(try_take_varint_u16(&mut d), Err(()));
    assert_eq!(d.remain(), 1);
    let mut d = DeserStream::from([0xFFu8, 0xFF, 0xFF, 0xFF, 0x10].as_slice());
    assert_eq!(try_take_varint_u32(&mut d), Err(()));
    let mut d =
        DeserStream::from([0xFFu8, 0xFF, 0xFF, 0xFF, 0xFF, 0xFF, 0xFF, 0xFF, 0xFF, 0x02].as_slice());
    assert_eq!(try_take_varint_u64(&mut d), Err(()));
    let mut bytes = vec![0xFFu8; 18];
    bytes.push(0x04);
    let mut d = DeserStream::from(bytes.as_slice());
    assert_eq!(try_take_varint_u128(&mut d), Err(()));
}

#[test]
fn a_varint_that_runs_on_is_rejected() {
    let mut d = DeserStream::from([0x80u8, 0x80, 0x80, 0x00, 0x00].as_slice());
    assert_eq!(try_take_varint_u16(&mut d), Err(()));
    assert_eq!(d.remain(), 2);
    let mut d = DeserStream::from([0x80u8, 0x80, 0x80, 0x80, 0x80, 0x00].as_slice());
    assert_eq!(try_take_varint_u32(&mut d), Err(()));
    assert_eq!(d.remain(), 1);
}

#[test]
fn a_varint_cut_short_is_rejected() {
    let mut d = DeserStream::from([0x80u8].as_slice());
    assert_eq!(try_take_varint_u16(&mut d), Err(()));
    assert_eq!(d.remain(), 0);
    let mut d = DeserStream::from([].as_slice());
    assert_eq!(try_take_varint_u64(&mut d), Err(()));
    for v in [128u32, 16384, 65536, u32::MAX] {
        let bytes = enc_u32(v);
        for k in 0..bytes.len() {
            let mut d = DeserStream::from(&bytes[..k]);
            assert_eq!(try_take_varint_u32(&mut d), Err(()));
        }
    }
}

#[test]
fn a_varint_that_does_not_fit_fills_the_buffer_and_fails() {
    let mut buf = [0xEEu8; 2];
    let mut s = SerStream::from(buf.as_mut_slice());
    assert_eq!(varint_u32(65536, &mut s), Err(()));
    assert_eq!(s.remain(), 0);
    assert_eq!(buf, [0x80, 0x80]);
    let mut buf = [0u8; 0];
    let mut s = SerStream::from(buf.as_mut_slice());
    assert_eq!(varint_u16(0, &mut s), Err(()));
    let mut buf = [0u8; 3];
    let mut s = SerStream::from(buf.as_mut_slice());
    assert_eq!(varint_u32(65536, &mut s), Ok(()));
    assert_eq!(s.remain(), 0);
}

#[test]
fn zig_zag_exact_values() {
    assert_eq!(zig_zag_i16(0), 0);
    assert_eq!(zig_zag_i16(-1), 1);
    assert_eq!(zig_zag_i16(1), 2);
    assert_eq!(zig_zag_i16(-2), 3);
    assert_eq!(zig_zag_i16(-129), 257);
    assert_eq!(zig_zag_i16(i16::MAX), 65534);
    assert_eq!(zig_zag_i16(i16::MIN), 65535);
    assert_eq!(zig_zag_i32(-32769), 65537);
    assert_eq!(zig_zag_i32(i32::MIN), u32::MAX);
    assert_eq!(zig_zag_i64(i64::MAX), u64::MAX - 1);
    assert_eq!(zig_zag_i64(i64::MIN), u64::MAX);
    assert_eq!(zig_zag_i128(i128::MIN), u128::MAX);
    assert_eq!(zig_zag_i128(-3), 5);
    assert_eq!(de_zig_zag_i16(257), -129);
    assert_eq!(de_zig_zag_i16(65535), i16::MIN);
    assert_eq!(de_zig_zag_i32(65537), -32769);
    assert_eq!(de_zig_zag_i64(u64::MAX - 1), i64::MAX);
    assert_eq!(de_zig_zag_i128(5), -3);
    assert_eq!(de_zig_zag_i128(u128::MAX), i128::MIN);
}

#[test]
fn zig_zag_undoes_itself_on_every_i16() {
    for n in i16::MIN..=i16::MAX {
        assert_eq!(de_zig_zag_i16(zig_zag_i16(n)), n);
    }
    for u in 0..=u16::MAX {
        assert_eq!(zig_zag_i16(de_zig_zag_i16(u)), u);
    }
    for n in [0i64, 1, -1, i64::MAX, i64::MIN, i64::MAX - 1, i64::MIN + 1] {
        assert_eq!(de_zig_zag_i64(zig_zag_i64(n)), n);
        assert_eq!(de_zig_zag_i128(zig_zag_i128(n as i128)), n as i128);
        assert_eq!(de_zig_zag_i32(zig_zag_i32(n as i32)), n as i32);
    }
}
