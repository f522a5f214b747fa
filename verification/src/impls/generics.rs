//! Wire forms of the built-in generic types: the optional, the
//! length-prefixed sequence, the fixed array and the text string.

use crate::impls::scalars::lemma_skip_is_suffix;
use crate::stream::{DeserStream, SerStream};
use crate::traits::{Deserialize, RoundTrip, Serialize};
use crate::wire::varint;
use vstd::prelude::*;
use vstd::string::StringSliceAdditionalSpecFns;
use vstd::utf8::{
    decode_utf8, encode_utf8, encode_utf8_decode_utf8, encode_utf8_valid_utf8, valid_utf8,
};

verus! {

/// The wire forms of `items`, one after the other.
pub open spec fn wire_all<T: Serialize>(items: Seq<T>) -> Seq<u8>
    decreases items.len(),
{
    if items.len() == 0 {
        Seq::empty()
    } else {
        items[0].wire() + wire_all(items.skip(1))
    }
}

/// Reads `count` values of `T` off the front of `s`, one after the other.
pub open spec fn parse_many<T: Deserialize>(s: Seq<u8>, count: nat) -> Option<
    (Seq<<T as DeepView>::V>, nat),
>
    decreases count,
{
    if count == 0 {
        Some((Seq::empty(), 0nat))
    } else {
        match T::parse(s) {
            Some((v, n)) => match parse_many::<T>(s.skip(n as int), (count - 1) as nat) {
                Some((vs, m)) => Some((seq![v] + vs, n + m)),
                None => None,
            },
            None => None,
        }
    }
}

/// The views of `items`, in order.
pub open spec fn views<T: DeepView>(items: Seq<T>) -> Seq<<T as DeepView>::V> {
    Seq::new(items.len(), |i: int| items[i].deep_view())
}

/// One more item adds its wire form at the end.
pub proof fn lemma_wire_all_push<T: Serialize>(items: Seq<T>, last: T)
    ensures
        wire_all(items.push(last)) == wire_all(items) + last.wire(),
    decreases items.len(),
{
    let more = items.push(last);
    if items.len() == 0 {
        assert(more.skip(1) =~= Seq::<T>::empty());
        assert(wire_all(more.skip(1)) =~= Seq::<u8>::empty());
        assert(wire_all(more) =~= last.wire());
        assert(wire_all(items) + last.wire() =~= last.wire());
    } else {
        lemma_wire_all_push(items.skip(1), last);
        assert(more.skip(1) =~= items.skip(1).push(last));
        assert(wire_all(more) =~= wire_all(items) + last.wire());
    }
}

/// Reading many is local, as reading one is; and it gives as many values
/// as were asked for.
pub proof fn lemma_parse_many_local<T: Deserialize>(s: Seq<u8>, t: Seq<u8>, count: nat)
    ensures
        parse_many::<T>(s, count) matches Some((vs, n)) ==> n <= s.len() && vs.len() == count
            && parse_many::<T>(s.take(n as int) + t, count) == Some((vs, n)),
    decreases count,
{
    if count > 0 {
        if let Some((v, n)) = T::parse(s) {
            let rest = s.skip(n as int);
            T::lemma_parse_local(s, t);
            lemma_parse_many_local::<T>(rest, t, (count - 1) as nat);
            if let Some((vs, m)) = parse_many::<T>(rest, (count - 1) as nat) {
                let cut = s.take((n + m) as int) + t;
                T::lemma_parse_local(s, rest.take(m as int) + t);
                assert(s.take(n as int) + (rest.take(m as int) + t) =~= cut);
                assert(cut.skip(n as int) =~= rest.take(m as int) + t);
            }
        }
    } else {
        assert(s.take(0) + t =~= t);
    }
}

/// Having read `count` values, reading one more reads on from where they
/// ended.
pub proof fn lemma_parse_many_extend<T: Deserialize>(s: Seq<u8>, count: nat)
    ensures
        parse_many::<T>(s, count + 1) == match parse_many::<T>(s, count) {
            Some((vs, n)) => match T::parse(s.skip(n as int)) {
                Some((v, m)) => Some((vs.push(v), n + m)),
                None => None,
            },
            None => None,
        },
    decreases count,
{
    reveal_with_fuel(parse_many, 2);
    if count == 0 {
        assert(s.skip(0) =~= s);
        match T::parse(s) {
            Some((v, m)) => {
                assert(parse_many::<T>(s.skip(m as int), 0) == Some(
                    (Seq::<<T as DeepView>::V>::empty(), 0nat),
                ));
                assert(seq![v] + Seq::<<T as DeepView>::V>::empty() =~= Seq::<
                    <T as DeepView>::V,
                >::empty().push(v));
            },
            None => {},
        }
    } else {
        match T::parse(s) {
            Some((v0, n0)) => {
                let rest = s.skip(n0 as int);
                T::lemma_parse_local(s, Seq::empty());
                lemma_parse_many_extend::<T>(rest, (count - 1) as nat);
                lemma_parse_many_local::<T>(rest, Seq::empty(), (count - 1) as nat);
                match parse_many::<T>(rest, (count - 1) as nat) {
                    Some((vs, n)) => {
                        assert(rest.skip(n as int) =~= s.skip((n0 + n) as int));
                        match T::parse(rest.skip(n as int)) {
                            Some((v, m)) => {
                                assert(seq![v0] + vs.push(v) =~= (seq![v0] + vs).push(v));
                            },
                            None => {},
                        }
                    },
                    None => {},
                }
            },
            None => {},
        }
    }
}

/// Where fewer values do not read, more do not either.
pub proof fn lemma_parse_many_fails<T: Deserialize>(s: Seq<u8>, fewer: nat, count: nat)
    requires
        fewer <= count,
        parse_many::<T>(s, fewer) is None,
    ensures
        parse_many::<T>(s, count) is None,
    decreases count - fewer,
{
    if fewer < count {
        lemma_parse_many_extend::<T>(s, fewer);
        lemma_parse_many_fails::<T>(s, fewer + 1, count);
    }
}

/// What was written of many, followed by anything, reads back as their
/// views, over exactly the bytes that were written.
pub proof fn lemma_parse_many_round_trip<T: RoundTrip>(items: Seq<T>, rest: Seq<u8>)
    ensures
        parse_many::<T>(wire_all(items) + rest, items.len()) == Some(
            (views(items), wire_all(items).len()),
        ),
    decreases items.len(),
{
    if items.len() == 0 {
        assert(views(items) =~= Seq::empty());
    } else {
        let head = items[0];
        let tail = items.skip(1);
        let whole = wire_all(items) + rest;
        head.lemma_round_trip(wire_all(tail) + rest);
        assert(head.wire() + (wire_all(tail) + rest) =~= whole);
        assert(whole.skip(head.wire().len() as int) =~= wire_all(tail) + rest);
        lemma_parse_many_round_trip(tail, rest);
        assert(seq![head.deep_view()] + views(tail) =~= views(items));
    }
}

impl<T: Serialize> Serialize for Option<T> {
    /// The presence as a `bool`, then the payload where there is one.
    open spec fn wire(&self) -> Seq<u8> {
        match self {
            Some(v) => seq![1u8] + v.wire(),
            None => seq![0u8],
        }
    }

    fn serialize(&self, stream: &mut SerStream) -> (res: Result<(), ()>) {
        let ghost start = stream@;
        let present: bool = self.is_some();
        let tag = present.serialize(stream);
        if tag.is_err() {
            proof {
                if let Some(v) = self {
                    start.lemma_cut_short_head(stream@, present.wire(), v.wire());
                }
            }
            return Err(());
        }
        if let Some(v) = self {
            let res = v.serialize(stream);
            proof {
                if res is Ok {
                    start.lemma_put_put(present.wire(), v.wire());
                } else {
                    start.lemma_cut_short_tail(stream@, present.wire(), v.wire());
                }
            }
            res
        } else {
            Ok(())
        }
    }
}

impl<T: Deserialize> Deserialize for Option<T> {
    /// A `bool`, and after a true one the payload.
    open spec fn parse(s: Seq<u8>) -> Option<(Option<<T as DeepView>::V>, nat)> {
        match bool::parse(s) {
            Some((present, n)) => if present {
                match T::parse(s.skip(n as int)) {
                    Some((v, m)) => Some((Some(v), n + m)),
                    None => None,
                }
            } else {
                Some((None, n))
            },
            None => None,
        }
    }

    proof fn lemma_parse_local(s: Seq<u8>, t: Seq<u8>) {
        if let Some((present, n)) = bool::parse(s) {
            if present {
                let rest = s.skip(1);
                T::lemma_parse_local(rest, t);
                if let Some((v, m)) = T::parse(rest) {
                    let cut = s.take((1 + m) as int) + t;
                    assert(cut.skip(1) =~= rest.take(m as int) + t);
                }
            }
        }
    }

    fn deserialize(stream: &mut DeserStream) -> (res: Result<Option<T>, ()>) {
        let ghost s0 = stream@;
        let disc: bool = match bool::deserialize(stream) {
            Ok(disc) => disc,
            Err(_) => {
                return Err(());
            },
        };
        if disc {
            proof {
                T::lemma_parse_local(s0.skip(1), Seq::empty());
            }
            let ghost rest = stream@;
            match T::deserialize(stream) {
                Ok(out) => {
                    proof {
                        if let Some((v, m)) = T::parse(rest) {
                            assert(rest.skip(m as int) =~= s0.skip((1 + m) as int));
                        }
                    }
                    Ok(Some(out))
                },
                Err(_) => {
                    proof {
                        lemma_suffix_of_skip(stream@, s0, 1);
                    }
                    Err(())
                },
            }
        } else {
            Ok(None)
        }
    }
}

impl<T: RoundTrip> RoundTrip for Option<T> {
    proof fn lemma_round_trip(&self, rest: Seq<u8>) {
        let whole = self.wire() + rest;
        if let Some(v) = self {
            v.lemma_round_trip(rest);
            assert(whole.skip(1) =~= v.wire() + rest);
        }
    }
}

/// The wire forms of many are those of the first `k`, then those of the
/// others.
pub proof fn lemma_wire_all_split<T: Serialize>(items: Seq<T>, k: int)
    requires
        0 <= k <= items.len(),
    ensures
        wire_all(items) == wire_all(items.take(k)) + wire_all(items.skip(k)),
    decreases k,
{
    if k == 0 {
        assert(items.take(0) =~= Seq::<T>::empty());
        assert(items.skip(0) =~= items);
        assert(wire_all(items.take(0)) + wire_all(items) =~= wire_all(items));
    } else {
        let tail = items.skip(1);
        lemma_wire_all_split(tail, k - 1);
        assert(items.take(k).skip(1) =~= tail.take(k - 1));
        assert(tail.skip(k - 1) =~= items.skip(k));
        assert(items.take(k)[0] == items[0]);
        assert(wire_all(items) =~= wire_all(items.take(k)) + wire_all(items.skip(k)));
    }
}

/// Appends the wire forms of `items`, in order, and stops at the first
/// that does not fit.
pub fn serialize_each<T: Serialize>(items: &[T], stream: &mut SerStream) -> (res: Result<(), ()>)
    ensures
        res is Ok <==> wire_all(items@).len() <= old(stream)@.room(),
        res is Ok ==> final(stream)@ == old(stream)@.put(wire_all(items@)),
        res is Err ==> old(stream)@.cut_short(final(stream)@, wire_all(items@)),
{
    let ghost start = stream@;
    let n: usize = items.len();
    let mut i: usize = 0;
    proof {
        start.lemma_put_empty();
        assert(items@.take(0) =~= Seq::<T>::empty());
    }
    while i < n
        invariant
            start == old(stream)@,
            n == items@.len(),
            i <= n,
            wire_all(items@.take(i as int)).len() <= start.room(),
            stream@ == start.put(wire_all(items@.take(i as int))),
        decreases n - i,
    {
        let ghost done = wire_all(items@.take(i as int));
        let ghost this = items@[i as int].wire();
        let ghost rest = wire_all(items@.skip(i + 1));
        let res = items[i].serialize(stream);
        proof {
            lemma_wire_all_push(items@.take(i as int), items@[i as int]);
            assert(items@.take(i as int).push(items@[i as int]) =~= items@.take(i + 1));
            lemma_wire_all_split(items@, i + 1);
            start.lemma_put_room(done);
            if res is Ok {
                start.lemma_put_put(done, this);
            } else {
                start.lemma_cut_short_tail(stream@, done, this);
                start.lemma_cut_short_head(stream@, done + this, rest);
            }
        }
        if res.is_err() {
            return Err(());
        }
        i = i + 1;
    }
    proof {
        assert(items@.take(n as int) =~= items@);
    }
    Ok(())
}

/// Reads `count` values off the front of the stream, in order, and stops
/// at the first that does not read.
pub fn deserialize_many<T: Deserialize>(count: usize, stream: &mut DeserStream) -> (res: Result<
    Vec<T>,
    (),
>)
    ensures
        match parse_many::<T>(old(stream)@, count as nat) {
            Some((vs, n)) => res matches Ok(r) && r.deep_view() == vs && final(stream)@ == old(
                stream,
            )@.skip(n as int),
            None => res is Err && final(stream)@.is_suffix_of(old(stream)@),
        },
{
    let ghost s0 = stream@;
    let ghost mut used: nat = 0;
    let mut out: Vec<T> = Vec::new();
    let mut i: usize = 0;
    proof {
        assert(s0.skip(0) =~= s0);
        assert(out.deep_view() =~= Seq::empty());
    }
    while i < count
        invariant
            s0 == old(stream)@,
            i <= count,
            used <= s0.len(),
            stream@ == s0.skip(used as int),
            parse_many::<T>(s0, i as nat) == Some((out.deep_view(), used)),
        decreases count - i,
    {
        let ghost before = out.deep_view();
        proof {
            lemma_parse_many_extend::<T>(s0, i as nat);
            T::lemma_parse_local(s0.skip(used as int), Seq::empty());
        }
        match T::deserialize(stream) {
            Ok(item) => {
                out.push(item);
                proof {
                    let (v, m) = T::parse(s0.skip(used as int))->Some_0;
                    assert(out.deep_view() =~= before.push(v));
                    assert(s0.skip(used as int).skip(m as int) =~= s0.skip((used + m) as int));
                    used = used + m;
                }
            },
            Err(_) => {
                proof {
                    lemma_parse_many_fails::<T>(s0, (i + 1) as nat, count as nat);
                    lemma_suffix_of_skip(stream@, s0, used as int);
                }
                return Err(());
            },
        }
        i = i + 1;
    }
    Ok(out)
}

impl<T: Serialize> Serialize for Vec<T> {
    /// The varint of the length, then the items in order.
    open spec fn wire(&self) -> Seq<u8> {
        varint(self@.len()) + wire_all(self@)
    }

    fn serialize(&self, stream: &mut SerStream) -> (res: Result<(), ()>) {
        let ghost start = stream@;
        let len: usize = self.len();
        if len.serialize(stream).is_err() {
            proof {
                start.lemma_cut_short_head(stream@, len.wire(), wire_all(self@));
            }
            return Err(());
        }
        let res = serialize_each(self.as_slice(), stream);
        proof {
            if res is Ok {
                start.lemma_put_put(len.wire(), wire_all(self@));
            } else {
                start.lemma_cut_short_tail(stream@, len.wire(), wire_all(self@));
            }
        }
        res
    }
}

impl<T: Deserialize> Deserialize for Vec<T> {
    /// A length, and as many items after it.
    open spec fn parse(s: Seq<u8>) -> Option<(Seq<<T as DeepView>::V>, nat)> {
        match usize::parse(s) {
            Some((len, k)) => match parse_many::<T>(s.skip(k as int), len as nat) {
                Some((vs, m)) => Some((vs, k + m)),
                None => None,
            },
            None => None,
        }
    }

    proof fn lemma_parse_local(s: Seq<u8>, t: Seq<u8>) {
        if let Some((len, k)) = usize::parse(s) {
            let rest = s.skip(k as int);
            lemma_parse_many_local::<T>(rest, t, len as nat);
            if let Some((vs, m)) = parse_many::<T>(rest, len as nat) {
                let cut = s.take((k + m) as int) + t;
                usize::lemma_parse_local(s, rest.take(m as int) + t);
                assert(s.take(k as int) + (rest.take(m as int) + t) =~= cut);
                assert(cut.skip(k as int) =~= rest.take(m as int) + t);
            } else {
                usize::lemma_parse_local(s, t);
            }
        }
    }

    fn deserialize(stream: &mut DeserStream) -> (res: Result<Vec<T>, ()>) {
        let ghost s0 = stream@;
        proof {
            usize::lemma_parse_local(s0, Seq::empty());
        }
        let len: usize = match usize::deserialize(stream) {
            Ok(len) => len,
            Err(_) => {
                return Err(());
            },
        };
        let ghost k = usize::parse(s0)->Some_0.1;
        let ghost rest = stream@;
        proof {
            lemma_parse_many_local::<T>(rest, Seq::empty(), len as nat);
        }
        match deserialize_many::<T>(len, stream) {
            Ok(out) => {
                proof {
                    let m = parse_many::<T>(rest, len as nat)->Some_0.1;
                    assert(rest.skip(m as int) =~= s0.skip((k + m) as int));
                }
                Ok(out)
            },
            Err(_) => {
                proof {
                    lemma_suffix_of_skip(stream@, s0, k as int);
                }
                Err(())
            },
        }
    }
}

impl<T: RoundTrip> RoundTrip for Vec<T> {
    proof fn lemma_round_trip(&self, rest: Seq<u8>) {
        vstd::std_specs::vec::axiom_spec_len(self);
        let len: usize = self@.len() as usize;
        let whole = self.wire() + rest;
        len.lemma_round_trip(wire_all(self@) + rest);
        assert(len.wire() + (wire_all(self@) + rest) =~= whole);
        assert(whole.skip(len.wire().len() as int) =~= wire_all(self@) + rest);
        lemma_parse_many_round_trip(self@, rest);
        assert(views(self@) =~= self.deep_view());
    }
}

/// `<[T; N]>::try_from` of std, on a `Vec<T>`: the vector's items as an
/// array, where there are exactly `N` of them, and nothing otherwise.
#[verifier::external_body]
fn array_from_vec<T, const N: usize>(items: Vec<T>) -> (res: Option<[T; N]>)
    ensures
        res is Some <==> items@.len() == N,
        res matches Some(a) ==> a@ == items@,
{
    <[T; N]>::try_from(items).ok()
}

impl<T: Serialize, const N: usize> Serialize for [T; N] {
    /// The `N` items in order, with no length before them.
    open spec fn wire(&self) -> Seq<u8> {
        wire_all(self@)
    }

    fn serialize(&self, stream: &mut SerStream) -> (res: Result<(), ()>) {
        serialize_each(self.as_slice(), stream)
    }
}

impl<T: Deserialize, const N: usize> Deserialize for [T; N] {
    /// `N` items, one after the other.
    open spec fn parse(s: Seq<u8>) -> Option<(Seq<<T as DeepView>::V>, nat)> {
        parse_many::<T>(s, N as nat)
    }

    proof fn lemma_parse_local(s: Seq<u8>, t: Seq<u8>) {
        lemma_parse_many_local::<T>(s, t, N as nat);
    }

    fn deserialize(stream: &mut DeserStream) -> (res: Result<[T; N], ()>) {
        let ghost s0 = stream@;
        proof {
            lemma_parse_many_local::<T>(s0, Seq::empty(), N as nat);
        }
        match deserialize_many::<T>(N, stream) {
            Ok(items) => {
                proof {
                    assert(items.deep_view().len() == N);
                }
                match array_from_vec::<T, N>(items) {
                    Some(out) => {
                        proof {
                            assert(out.deep_view() =~= items.deep_view());
                        }
                        Ok(out)
                    },
                    None => Err(()),
                }
            },
            Err(_) => Err(()),
        }
    }
}

impl<T: RoundTrip, const N: usize> RoundTrip for [T; N] {
    proof fn lemma_round_trip(&self, rest: Seq<u8>) {
        lemma_parse_many_round_trip(self@, rest);
        assert(views(self@) =~= self.deep_view());
    }
}

/// `core::str::from_utf8` of std: the bytes as a string slice, where they
/// are valid UTF-8, and nothing otherwise.
#[verifier::external_body]
fn str_from_utf8<'a>(bytes: &'a [u8]) -> (res: Option<&'a str>)
    ensures
        res is Some <==> valid_utf8(bytes@),
        res matches Some(text) ==> text.spec_bytes() == bytes@,
{
    core::str::from_utf8(bytes).ok()
}

impl Serialize for String {
    /// The varint of the length in bytes, then the UTF-8 bytes.
    open spec fn wire(&self) -> Seq<u8> {
        varint(encode_utf8(self@).len()) + encode_utf8(self@)
    }

    fn serialize(&self, stream: &mut SerStream) -> (res: Result<(), ()>) {
        let ghost start = stream@;
        let val: &str = self.as_str();
        let bytes: &[u8] = val.as_bytes();
        let len: usize = bytes.len();
        if len.serialize(stream).is_err() {
            proof {
                start.lemma_cut_short_head(stream@, len.wire(), bytes@);
            }
            return Err(());
        }
        let ghost mid = stream@;
        let res = stream.push_n(bytes);
        proof {
            if res is Ok {
                start.lemma_put_put(len.wire(), bytes@);
            } else {
                assert((len.wire() + bytes@).take(len.wire().len() as int) =~= len.wire());
            }
        }
        res
    }
}

impl Deserialize for String {
    /// A length, and as many bytes after it, which must be valid UTF-8.
    open spec fn parse(s: Seq<u8>) -> Option<(Seq<char>, nat)> {
        match usize::parse(s) {
            Some((len, k)) => {
                let bytes = s.subrange(k as int, k + len);
                if k + len <= s.len() && valid_utf8(bytes) {
                    Some((decode_utf8(bytes), (k + len) as nat))
                } else {
                    None
                }
            },
            None => None,
        }
    }

    proof fn lemma_parse_local(s: Seq<u8>, t: Seq<u8>) {
        if let Some((len, k)) = usize::parse(s) {
            usize::lemma_parse_local(s, s.subrange(k as int, k + len) + t);
            if k + len <= s.len() {
                let cut = s.take(k + len) + t;
                assert(s.take(k as int) + (s.subrange(k as int, k + len) + t) =~= cut);
                assert(cut.subrange(k as int, k + len) =~= s.subrange(k as int, k + len));
            }
        }
    }

    fn deserialize(stream: &mut DeserStream) -> (res: Result<String, ()>) {
        let ghost s0 = stream@;
        proof {
            usize::lemma_parse_local(s0, Seq::empty());
        }
        let len: usize = match usize::deserialize(stream) {
            Ok(len) => len,
            Err(_) => {
                return Err(());
            },
        };
        let ghost k = usize::parse(s0)->Some_0.1;
        proof {
            lemma_skip_is_suffix(s0, k as int);
            if k + len <= s0.len() {
                lemma_skip_is_suffix(s0, k + len);
                assert(s0.skip(k as int).take(len as int) =~= s0.subrange(k as int, k + len));
                assert(s0.skip(k as int).skip(len as int) =~= s0.skip(k + len));
            }
        }
        let bytes: &[u8] = match stream.pop_n(len) {
            Ok(bytes) => bytes,
            Err(_) => {
                return Err(());
            },
        };
        match str_from_utf8(bytes) {
            Some(utf) => {
                proof {
                    encode_utf8_decode_utf8(utf@);
                }
                Ok(utf.to_owned())
            },
            None => Err(()),
        }
    }
}

/// A text round-trips, stated of its characters: the varint of the length
/// of their UTF-8 bytes, then those bytes, then anything, reads back as the
/// characters, over exactly the bytes that were written. This is stated of
/// the texts whose length in bytes a `usize` can hold, which are all that a
/// machine can hold.
pub proof fn lemma_chars_round_trip(chars: Seq<char>, rest: Seq<u8>)
    requires
        encode_utf8(chars).len() <= usize::MAX,
    ensures
        String::parse(varint(encode_utf8(chars).len()) + encode_utf8(chars) + rest) == Some(
            (chars, (varint(encode_utf8(chars).len()) + encode_utf8(chars)).len()),
        ),
{
    let bytes = encode_utf8(chars);
    let len: usize = bytes.len() as usize;
    let whole = varint(bytes.len()) + bytes + rest;
    len.lemma_round_trip(bytes + rest);
    assert(len.wire() + (bytes + rest) =~= whole);
    let k = len.wire().len();
    assert(whole.subrange(k as int, k + len) =~= bytes);
    encode_utf8_valid_utf8(chars);
    encode_utf8_decode_utf8(chars);
}

/// A text round-trips: what was written of it, followed by anything, reads
/// back as its characters, over exactly the bytes that were written.
pub proof fn lemma_text_round_trip(text: &String, rest: Seq<u8>)
    requires
        encode_utf8(text@).len() <= usize::MAX,
    ensures
        String::parse(text.wire() + rest) == Some((text@, text.wire().len())),
{
    lemma_chars_round_trip(text@, rest);
}

/// A text whose bytes are not valid UTF-8 does not read.
pub proof fn lemma_bad_text_fails(s: Seq<u8>)
    requires
        usize::parse(s) matches Some((len, k)) && k + len <= s.len() && !valid_utf8(
            s.subrange(k as int, k + len),
        ),
    ensures
        String::parse(s) is None,
{
}

/// A suffix of what is left after `k` bytes is a suffix of the whole.
pub proof fn lemma_suffix_of_skip(end: Seq<u8>, s: Seq<u8>, k: int)
    requires
        0 <= k <= s.len(),
        end.is_suffix_of(s.skip(k)),
    ensures
        end.is_suffix_of(s),
{
    let part = s.skip(k);
    assert(end =~= s.subrange(s.len() - end.len(), s.len() as int)) by {
        assert(end =~= part.subrange(part.len() - end.len(), part.len() as int));
    }
}

} // verus!
