//! Wire forms of the scalar types: the unit, `bool`, and the integers.

use crate::de_varint::{
    de_zig_zag_i128, de_zig_zag_i16, de_zig_zag_i32, de_zig_zag_i64, try_take_varint_u128,
    try_take_varint_u16, try_take_varint_u32, try_take_varint_u64, try_take_varint_usize,
};
use crate::ser_varint::{
    varint_u128, varint_u16, varint_u32, varint_u64, varint_usize, zig_zag_i128, zig_zag_i16,
    zig_zag_i32, zig_zag_i64,
};
use crate::stream::{DeserStream, SerStream};
use crate::traits::{Deserialize, RoundTrip, Serialize};
use crate::wire::{
    failed_span, lemma_parse_groups_prefix, lemma_take_varint_bound, lemma_take_varint_of_varint,
    lemma_zigzag_inverse, lemma_zigzag_range, last_byte_max, max_bytes, take_varint, unzigzag,
    varint, zigzag,
};
use vstd::arithmetic::power2::{lemma2_to64, lemma_pow2_adds, lemma_pow2_unfold, pow2};
use vstd::layout::layout_of_primitives;
use vstd::prelude::*;

verus! {

/// `2^128`, which the library of powers does not spell out.
pub proof fn lemma_pow2_128()
    ensures
        pow2(128) == 0x1_0000_0000_0000_0000_0000_0000_0000_0000,
        pow2(127) == 0x8000_0000_0000_0000_0000_0000_0000_0000,
{
    lemma2_to64();
    lemma_pow2_adds(64, 64);
    lemma_pow2_unfold(128);
    assert(pow2(64) * pow2(64) == 0x1_0000_0000_0000_0000_0000_0000_0000_0000) by (nonlinear_arith)
        requires
            pow2(64) == 0x1_0000_0000_0000_0000,
    ;
}

/// A stream that has moved on by `k` bytes holds a suffix of what it held.
pub proof fn lemma_skip_is_suffix(s: Seq<u8>, k: int)
    requires
        0 <= k <= s.len(),
    ensures
        s.skip(k).is_suffix_of(s),
{
    assert(s.skip(k) =~= s.subrange(s.len() - s.skip(k).len(), s.len() as int));
}

impl Serialize for () {
    /// The unit takes no bytes.
    open spec fn wire(&self) -> Seq<u8> {
        Seq::empty()
    }

    fn serialize(&self, stream: &mut SerStream) -> (res: Result<(), ()>) {
        proof {
            stream@.lemma_put_empty();
        }
        Ok(())
    }
}

impl Deserialize for () {
    open spec fn parse(s: Seq<u8>) -> Option<((), nat)> {
        Some(((), 0nat))
    }

    proof fn lemma_parse_local(s: Seq<u8>, t: Seq<u8>) {
    }

    fn deserialize(stream: &mut DeserStream) -> (res: Result<(), ()>) {
        proof {
            assert(stream@.skip(0) =~= stream@);
        }
        Ok(())
    }
}

impl RoundTrip for () {
    proof fn lemma_round_trip(&self, rest: Seq<u8>) {
    }
}

impl Serialize for bool {
    /// One byte: `0x01` for true, `0x00` for false.
    open spec fn wire(&self) -> Seq<u8> {
        seq![if *self { 1u8 } else { 0u8 }]
    }

    fn serialize(&self, stream: &mut SerStream) -> (res: Result<(), ()>) {
        let val: bool = *self;
        let res = stream.push_one(if val { 0x01 } else { 0x00 });
        proof {
            if res is Err {
                stream@.lemma_put_empty();
                assert(self.wire().take(0) =~= Seq::<u8>::empty());
            }
        }
        res
    }
}

impl Deserialize for bool {
    /// One byte, which must be 0 or 1.
    open spec fn parse(s: Seq<u8>) -> Option<(bool, nat)> {
        if s.len() >= 1 && s[0] <= 1 {
            Some((s[0] == 1, 1nat))
        } else {
            None
        }
    }

    proof fn lemma_parse_local(s: Seq<u8>, t: Seq<u8>) {
    }

    fn deserialize(stream: &mut DeserStream) -> (res: Result<bool, ()>) {
        let ghost s0 = stream@;
        proof {
            lemma_skip_is_suffix(s0, 0);
            assert(s0.skip(0) =~= s0);
            if s0.len() >= 1 {
                lemma_skip_is_suffix(s0, 1);
            }
        }
        match stream.pop_one() {
            Ok(0) => Ok(false),
            Ok(1) => Ok(true),
            _ => Err(()),
        }
    }
}

impl RoundTrip for bool {
    proof fn lemma_round_trip(&self, rest: Seq<u8>) {
    }
}

/// A `bool` byte other than 0 and 1 does not read.
pub proof fn lemma_bad_bool_fails(s: Seq<u8>)
    requires
        s.len() >= 1,
        s[0] > 1,
    ensures
        bool::parse(s) is None,
{
}

impl Serialize for u8 {
    /// One raw byte.
    open spec fn wire(&self) -> Seq<u8> {
        seq![*self]
    }

    fn serialize(&self, stream: &mut SerStream) -> (res: Result<(), ()>) {
        let val: u8 = *self;
        let res = stream.push_one(val);
        proof {
            if res is Err {
                stream@.lemma_put_empty();
                assert(self.wire().take(0) =~= Seq::<u8>::empty());
            }
        }
        res
    }
}

impl Deserialize for u8 {
    open spec fn parse(s: Seq<u8>) -> Option<(u8, nat)> {
        if s.len() >= 1 {
            Some((s[0], 1nat))
        } else {
            None
        }
    }

    proof fn lemma_parse_local(s: Seq<u8>, t: Seq<u8>) {
    }

    fn deserialize(stream: &mut DeserStream) -> (res: Result<u8, ()>) {
        proof {
            lemma_skip_is_suffix(stream@, 0);
            assert(stream@.skip(0) =~= stream@);
        }
        if let Ok(val) = stream.pop_one() {
            Ok(val)
        } else {
            Err(())
        }
    }
}

impl RoundTrip for u8 {
    proof fn lemma_round_trip(&self, rest: Seq<u8>) {
    }
}

impl Serialize for i8 {
    /// One raw byte: the two's complement of the value.
    open spec fn wire(&self) -> Seq<u8> {
        seq![*self as u8]
    }

    fn serialize(&self, stream: &mut SerStream) -> (res: Result<(), ()>) {
        let val: i8 = *self;
        let res = stream.push_one(
            #[verifier::truncate]
            (val as u8),
        );
        proof {
            if res is Err {
                stream@.lemma_put_empty();
                assert(self.wire().take(0) =~= Seq::<u8>::empty());
            }
        }
        res
    }
}

impl Deserialize for i8 {
    open spec fn parse(s: Seq<u8>) -> Option<(i8, nat)> {
        if s.len() >= 1 {
            Some((s[0] as i8, 1nat))
        } else {
            None
        }
    }

    proof fn lemma_parse_local(s: Seq<u8>, t: Seq<u8>) {
    }

    fn deserialize(stream: &mut DeserStream) -> (res: Result<i8, ()>) {
        proof {
            lemma_skip_is_suffix(stream@, 0);
            assert(stream@.skip(0) =~= stream@);
        }
        if let Ok(val) = stream.pop_one() {
            Ok(
                #[verifier::truncate]
                (val as i8),
            )
        } else {
            Err(())
        }
    }
}

impl RoundTrip for i8 {
    proof fn lemma_round_trip(&self, rest: Seq<u8>) {
        let v: i8 = *self;
        assert((v as u8) as i8 == v) by (bit_vector);
    }
}

impl Serialize for u16 {
    /// The varint of the value.
    open spec fn wire(&self) -> Seq<u8> {
        varint(*self as nat)
    }

    fn serialize(&self, stream: &mut SerStream) -> (res: Result<(), ()>) {
        let val: u16 = *self;
        varint_u16(val, stream)
    }
}

impl Deserialize for u16 {
    /// A varint of at most 3 bytes whose value fits 16 bits.
    open spec fn parse(s: Seq<u8>) -> Option<(u16, nat)> {
        match take_varint(s, 16) {
            Some((v, n)) => Some((v as u16, n)),
            None => None,
        }
    }

    proof fn lemma_parse_local(s: Seq<u8>, t: Seq<u8>) {
        lemma_take_varint_bound(s, 16);
        lemma_parse_groups_prefix(s, t, max_bytes(16), last_byte_max(16));
    }

    fn deserialize(stream: &mut DeserStream) -> (res: Result<u16, ()>) {
        proof {
            lemma_skip_is_suffix(stream@, failed_span(stream@, 16) as int);
        }
        if let Ok(val) = try_take_varint_u16(stream) {
            Ok(val)
        } else {
            Err(())
        }
    }
}

impl RoundTrip for u16 {
    proof fn lemma_round_trip(&self, rest: Seq<u8>) {
        lemma2_to64();
        lemma_pow2_128();
        lemma_take_varint_of_varint(*self as nat, 16, rest);
    }
}

impl Serialize for u32 {
    /// The varint of the value.
    open spec fn wire(&self) -> Seq<u8> {
        varint(*self as nat)
    }

    fn serialize(&self, stream: &mut SerStream) -> (res: Result<(), ()>) {
        let val: u32 = *self;
        varint_u32(val, stream)
    }
}

impl Deserialize for u32 {
    /// A varint of at most 5 bytes whose value fits 32 bits.
    open spec fn parse(s: Seq<u8>) -> Option<(u32, nat)> {
        match take_varint(s, 32) {
            Some((v, n)) => Some((v as u32, n)),
            None => None,
        }
    }

    proof fn lemma_parse_local(s: Seq<u8>, t: Seq<u8>) {
        lemma_take_varint_bound(s, 32);
        lemma_parse_groups_prefix(s, t, max_bytes(32), last_byte_max(32));
    }

    fn deserialize(stream: &mut DeserStream) -> (res: Result<u32, ()>) {
        proof {
            lemma_skip_is_suffix(stream@, failed_span(stream@, 32) as int);
        }
        if let Ok(val) = try_take_varint_u32(stream) {
            Ok(val)
        } else {
            Err(())
        }
    }
}

impl RoundTrip for u32 {
    proof fn lemma_round_trip(&self, rest: Seq<u8>) {
        lemma2_to64();
        lemma_pow2_128();
        lemma_take_varint_of_varint(*self as nat, 32, rest);
    }
}

impl Serialize for u64 {
    /// The varint of the value.
    open spec fn wire(&self) -> Seq<u8> {
        varint(*self as nat)
    }

    fn serialize(&self, stream: &mut SerStream) -> (res: Result<(), ()>) {
        let val: u64 = *self;
        varint_u64(val, stream)
    }
}

impl Deserialize for u64 {
    /// A varint of at most 10 bytes whose value fits 64 bits.
    open spec fn parse(s: Seq<u8>) -> Option<(u64, nat)> {
        match take_varint(s, 64) {
            Some((v, n)) => Some((v as u64, n)),
            None => None,
        }
    }

    proof fn lemma_parse_local(s: Seq<u8>, t: Seq<u8>) {
        lemma_take_varint_bound(s, 64);
        lemma_parse_groups_prefix(s, t, max_bytes(64), last_byte_max(64));
    }

    fn deserialize(stream: &mut DeserStream) -> (res: Result<u64, ()>) {
        proof {
            lemma_skip_is_suffix(stream@, failed_span(stream@, 64) as int);
        }
        if let Ok(val) = try_take_varint_u64(stream) {
            Ok(val)
        } else {
            Err(())
        }
    }
}

impl RoundTrip for u64 {
    proof fn lemma_round_trip(&self, rest: Seq<u8>) {
        lemma2_to64();
        lemma_pow2_128();
        lemma_take_varint_of_varint(*self as nat, 64, rest);
    }
}

impl Serialize for u128 {
    /// The varint of the value.
    open spec fn wire(&self) -> Seq<u8> {
        varint(*self as nat)
    }

    fn serialize(&self, stream: &mut SerStream) -> (res: Result<(), ()>) {
        let val: u128 = *self;
        varint_u128(val, stream)
    }
}

impl Deserialize for u128 {
    /// A varint of at most 19 bytes whose value fits 128 bits.
    open spec fn parse(s: Seq<u8>) -> Option<(u128, nat)> {
        match take_varint(s, 128) {
            Some((v, n)) => Some((v as u128, n)),
            None => None,
        }
    }

    proof fn lemma_parse_local(s: Seq<u8>, t: Seq<u8>) {
        lemma_take_varint_bound(s, 128);
        lemma_parse_groups_prefix(s, t, max_bytes(128), last_byte_max(128));
    }

    fn deserialize(stream: &mut DeserStream) -> (res: Result<u128, ()>) {
        proof {
            lemma_skip_is_suffix(stream@, failed_span(stream@, 128) as int);
        }
        if let Ok(val) = try_take_varint_u128(stream) {
            Ok(val)
        } else {
            Err(())
        }
    }
}

impl RoundTrip for u128 {
    proof fn lemma_round_trip(&self, rest: Seq<u8>) {
        lemma2_to64();
        lemma_pow2_128();
        lemma_take_varint_of_varint(*self as nat, 128, rest);
    }
}

impl Serialize for i16 {
    /// The varint of the zig-zag of the value.
    open spec fn wire(&self) -> Seq<u8> {
        varint(zigzag(*self as int))
    }

    fn serialize(&self, stream: &mut SerStream) -> (res: Result<(), ()>) {
        let val: i16 = *self;
        let val: u16 = zig_zag_i16(val);
        varint_u16(val, stream)
    }
}

impl Deserialize for i16 {
    /// A varint of at most 3 bytes whose value fits 16 bits, taken back
    /// through zig-zag.
    open spec fn parse(s: Seq<u8>) -> Option<(i16, nat)> {
        match take_varint(s, 16) {
            Some((v, n)) => Some((unzigzag(v) as i16, n)),
            None => None,
        }
    }

    proof fn lemma_parse_local(s: Seq<u8>, t: Seq<u8>) {
        lemma_take_varint_bound(s, 16);
        lemma_parse_groups_prefix(s, t, max_bytes(16), last_byte_max(16));
    }

    fn deserialize(stream: &mut DeserStream) -> (res: Result<i16, ()>) {
        proof {
            lemma_skip_is_suffix(stream@, failed_span(stream@, 16) as int);
        }
        if let Ok(val) = try_take_varint_u16(stream) {
            let val: i16 = de_zig_zag_i16(val);
            Ok(val)
        } else {
            Err(())
        }
    }
}

impl RoundTrip for i16 {
    proof fn lemma_round_trip(&self, rest: Seq<u8>) {
        lemma2_to64();
        lemma_pow2_128();
        lemma_zigzag_range(*self as int, 0, 16);
        lemma_zigzag_inverse(*self as int, 0);
        lemma_take_varint_of_varint(zigzag(*self as int), 16, rest);
    }
}

impl Serialize for i32 {
    /// The varint of the zig-zag of the value.
    open spec fn wire(&self) -> Seq<u8> {
        varint(zigzag(*self as int))
    }

    fn serialize(&self, stream: &mut SerStream) -> (res: Result<(), ()>) {
        let val: i32 = *self;
        let val: u32 = zig_zag_i32(val);
        varint_u32(val, stream)
    }
}

impl Deserialize for i32 {
    /// A varint of at most 5 bytes whose value fits 32 bits, taken back
    /// through zig-zag.
    open spec fn parse(s: Seq<u8>) -> Option<(i32, nat)> {
        match take_varint(s, 32) {
            Some((v, n)) => Some((unzigzag(v) as i32, n)),
            None => None,
        }
    }

    proof fn lemma_parse_local(s: Seq<u8>, t: Seq<u8>) {
        lemma_take_varint_bound(s, 32);
        lemma_parse_groups_prefix(s, t, max_bytes(32), last_byte_max(32));
    }

    fn deserialize(stream: &mut DeserStream) -> (res: Result<i32, ()>) {
        proof {
            lemma_skip_is_suffix(stream@, failed_span(stream@, 32) as int);
        }
        if let Ok(val) = try_take_varint_u32(stream) {
            let val: i32 = de_zig_zag_i32(val);
            Ok(val)
        } else {
            Err(())
        }
    }
}

impl RoundTrip for i32 {
    proof fn lemma_round_trip(&self, rest: Seq<u8>) {
        lemma2_to64();
        lemma_pow2_128();
        lemma_zigzag_range(*self as int, 0, 32);
        lemma_zigzag_inverse(*self as int, 0);
        lemma_take_varint_of_varint(zigzag(*self as int), 32, rest);
    }
}

impl Serialize for i64 {
    /// The varint of the zig-zag of the value.
    open spec fn wire(&self) -> Seq<u8> {
        varint(zigzag(*self as int))
    }

    fn serialize(&self, stream: &mut SerStream) -> (res: Result<(), ()>) {
        let val: i64 = *self;
        let val: u64 = zig_zag_i64(val);
        varint_u64(val, stream)
    }
}

impl Deserialize for i64 {
    /// A varint of at most 10 bytes whose value fits 64 bits, taken back
    /// through zig-zag.
    open spec fn parse(s: Seq<u8>) -> Option<(i64, nat)> {
        match take_varint(s, 64) {
            Some((v, n)) => Some((unzigzag(v) as i64, n)),
            None => None,
        }
    }

    proof fn lemma_parse_local(s: Seq<u8>, t: Seq<u8>) {
        lemma_take_varint_bound(s, 64);
        lemma_parse_groups_prefix(s, t, max_bytes(64), last_byte_max(64));
    }

    fn deserialize(stream: &mut DeserStream) -> (res: Result<i64, ()>) {
        proof {
            lemma_skip_is_suffix(stream@, failed_span(stream@, 64) as int);
        }
        if let Ok(val) = try_take_varint_u64(stream) {
            let val: i64 = de_zig_zag_i64(val);
            Ok(val)
        } else {
            Err(())
        }
    }
}

impl RoundTrip for i64 {
    proof fn lemma_round_trip(&self, rest: Seq<u8>) {
        lemma2_to64();
        lemma_pow2_128();
        lemma_zigzag_range(*self as int, 0, 64);
        lemma_zigzag_inverse(*self as int, 0);
        lemma_take_varint_of_varint(zigzag(*self as int), 64, rest);
    }
}

impl Serialize for i128 {
    /// The varint of the zig-zag of the value.
    open spec fn wire(&self) -> Seq<u8> {
        varint(zigzag(*self as int))
    }

    fn serialize(&self, stream: &mut SerStream) -> (res: Result<(), ()>) {
        let val: i128 = *self;
        let val: u128 = zig_zag_i128(val);
        varint_u128(val, stream)
    }
}

impl Deserialize for i128 {
    /// A varint of at most 19 bytes whose value fits 128 bits, taken back
    /// through zig-zag.
    open spec fn parse(s: Seq<u8>) -> Option<(i128, nat)> {
        match take_varint(s, 128) {
            Some((v, n)) => Some((unzigzag(v) as i128, n)),
            None => None,
        }
    }

    proof fn lemma_parse_local(s: Seq<u8>, t: Seq<u8>) {
        lemma_take_varint_bound(s, 128);
        lemma_parse_groups_prefix(s, t, max_bytes(128), last_byte_max(128));
    }

    fn deserialize(stream: &mut DeserStream) -> (res: Result<i128, ()>) {
        proof {
            lemma_skip_is_suffix(stream@, failed_span(stream@, 128) as int);
        }
        if let Ok(val) = try_take_varint_u128(stream) {
            let val: i128 = de_zig_zag_i128(val);
            Ok(val)
        } else {
            Err(())
        }
    }
}

impl RoundTrip for i128 {
    proof fn lemma_round_trip(&self, rest: Seq<u8>) {
        lemma2_to64();
        lemma_pow2_128();
        lemma_zigzag_range(*self as int, 0, 128);
        lemma_zigzag_inverse(*self as int, 0);
        lemma_take_varint_of_varint(zigzag(*self as int), 128, rest);
    }
}

impl Serialize for usize {
    /// The varint of the value.
    open spec fn wire(&self) -> Seq<u8> {
        varint(*self as nat)
    }

    fn serialize(&self, stream: &mut SerStream) -> (res: Result<(), ()>) {
        let val: usize = *self;
        varint_usize(val, stream)
    }
}

impl Deserialize for usize {
    /// A varint whose value fits a pointer-wide unsigned integer.
    open spec fn parse(s: Seq<u8>) -> Option<(usize, nat)> {
        match take_varint(s, usize::BITS as nat) {
            Some((v, n)) => Some((v as usize, n)),
            None => None,
        }
    }

    proof fn lemma_parse_local(s: Seq<u8>, t: Seq<u8>) {
        lemma_take_varint_bound(s, usize::BITS as nat);
        lemma_parse_groups_prefix(
            s,
            t,
            max_bytes(usize::BITS as nat),
            last_byte_max(usize::BITS as nat),
        );
    }

    fn deserialize(stream: &mut DeserStream) -> (res: Result<usize, ()>) {
        proof {
            lemma_skip_is_suffix(stream@, failed_span(stream@, usize::BITS as nat) as int);
        }
        if let Ok(val) = try_take_varint_usize(stream) {
            Ok(val)
        } else {
            Err(())
        }
    }
}

impl RoundTrip for usize {
    proof fn lemma_round_trip(&self, rest: Seq<u8>) {
        lemma2_to64();
        lemma_take_varint_of_varint(*self as nat, usize::BITS as nat, rest);
    }
}

impl Serialize for isize {
    /// The varint of the zig-zag of the value.
    open spec fn wire(&self) -> Seq<u8> {
        varint(zigzag(*self as int))
    }

    fn serialize(&self, stream: &mut SerStream) -> (res: Result<(), ()>) {
        broadcast use layout_of_primitives;

        let val: isize = *self;
        proof {
            lemma2_to64();
            lemma_zigzag_range(val as int, 0, usize::BITS as nat);
        }
        let val: usize = if core::mem::size_of::<usize>() == 8 {
            zig_zag_i64(val as i64) as usize
        } else {
            zig_zag_i32(val as i32) as usize
        };
        varint_usize(val, stream)
    }
}

impl Deserialize for isize {
    /// A varint whose value fits a pointer-wide unsigned integer, taken
    /// back through zig-zag.
    open spec fn parse(s: Seq<u8>) -> Option<(isize, nat)> {
        match take_varint(s, usize::BITS as nat) {
            Some((v, n)) => Some((unzigzag(v) as isize, n)),
            None => None,
        }
    }

    proof fn lemma_parse_local(s: Seq<u8>, t: Seq<u8>) {
        lemma_take_varint_bound(s, usize::BITS as nat);
        lemma_parse_groups_prefix(
            s,
            t,
            max_bytes(usize::BITS as nat),
            last_byte_max(usize::BITS as nat),
        );
    }

    fn deserialize(stream: &mut DeserStream) -> (res: Result<isize, ()>) {
        broadcast use layout_of_primitives;

        proof {
            lemma_skip_is_suffix(stream@, failed_span(stream@, usize::BITS as nat) as int);
        }
        if let Ok(val) = try_take_varint_usize(stream) {
            proof {
                lemma2_to64();
                lemma_zigzag_range(0, val as nat, usize::BITS as nat);
            }
            let val: isize = if core::mem::size_of::<usize>() == 8 {
                de_zig_zag_i64(val as u64) as isize
            } else {
                de_zig_zag_i32(val as u32) as isize
            };
            Ok(val)
        } else {
            Err(())
        }
    }
}

impl RoundTrip for isize {
    proof fn lemma_round_trip(&self, rest: Seq<u8>) {
        lemma2_to64();
        lemma_zigzag_range(*self as int, 0, usize::BITS as nat);
        lemma_zigzag_inverse(*self as int, 0);
        lemma_take_varint_of_varint(zigzag(*self as int), usize::BITS as nat, rest);
    }
}

} // verus!
