use postcard_forth::{DeserStream, SerStream};

#[test]
fn push_one_writes_and_advances() {
    let mut buf = [0u8; 2];
    let mut s = SerStream::from(buf.as_mut_slice());
    assert_eq!(s.remain(), 2);
    assert_eq!(s.push_one(7), Ok(()));
    assert_eq!(s.remain(), 1);
    assert_eq!(s.push_one(9), Ok(()));
    assert_eq!(s.remain(), 0);
    assert_eq!(s.written(), &[7, 9]);
    assert_eq!(s.push_one(11), Err(()));
    assert_eq!(s.remain(), 0);
    assert_eq!(s.written(), &[7, 9]);
    assert_eq!(buf, [7, 9]);
}

#[test]
fn push_n_is_all_or_nothing() {
    let mut buf = [0xEEu8; 4];
    let mut s = SerStream::from(buf.as_mut_slice());
    assert_eq!(s.push_n(&[1, 2, 3]), Ok(()));
    assert_eq!(s.remain(), 1);
    assert_eq!(s.push_n(&[4, 5]), Err(()));
    assert_eq!(s.remain(), 1);
    assert_eq!(s.push_n(&[]), Ok(()));
    assert_eq!(s.remain(), 1);
    assert_eq!(s.push_n(&[6]), Ok(()));
    assert_eq!(s.remain(), 0);
    assert_eq!(s.push_n(&[]), Ok(()));
    assert_eq!(buf, [1, 2, 3, 6]);
}

#[test]
fn a_failed_push_n_leaves_the_bytes_alone() {
    let mut buf = [0xEEu8; 3];
    let mut s = SerStream::from(buf.as_mut_slice());
    assert_eq!(s.push_one(1), Ok(()));
    assert_eq!(s.push_n(&[7, 7, 7]), Err(()));
    assert_eq!(s.written(), &[1]);
    assert_eq!(buf, [1, 0xEE, 0xEE]);
}

#[test]
fn pop_one_reads_and_advances() {
    let bytes = [5u8, 6];
    let mut d = DeserStream::from(bytes.as_slice());
    assert_eq!(d.remain(), 2);
    assert_eq!(d.pop_one(), Ok(5));
    assert_eq!(d.remain(), 1);
    assert_eq!(d.pop_one(), Ok(6));
    assert_eq!(d.remain(), 0);
    assert_eq!(d.pop_one(), Err(()));
    assert_eq!(d.remain(), 0);
}

#[test]
fn pop_n_is_all_or_nothing() {
    let bytes = [1u8, 2, 3, 4];
    let mut d = DeserStream::from(bytes.as_slice());
    assert_eq!(d.pop_n(3), Ok([1u8, 2, 3].as_slice()));
    assert_eq!(d.remain(), 1);
    assert_eq!(d.pop_n(2), Err(()));
    assert_eq!(d.remain(), 1);
    assert_eq!(d.pop_n(0), Ok([].as_slice()));
    assert_eq!(d.pop_n(1), Ok([4u8].as_slice()));
    assert_eq!(d.remain(), 0);
    assert_eq!(d.pop_n(0), Ok([].as_slice()));
    assert_eq!(d.pop_n(usize::MAX), Err(()));
}
