//! The scalars as one type: a value of any of the primitive types, and the
//! name of the type it is of.

use crate::impls::bits::{F32Bits, F64Bits};
use crate::stream::{DeserStream, SerStream};
use crate::traits::{Deserialize, RoundTrip, Serialize};
use vstd::prelude::*;

verus! {

/// The name of a primitive type.
#[derive(Clone, Copy, Debug, PartialEq, Eq, Structural)]
pub enum Prim {
    /// The type of a truth value.
    Bool,
    /// The type of an unsigned byte.
    U8,
    /// The type of a 16-bit unsigned integer.
    U16,
    /// The type of a 32-bit unsigned integer.
    U32,
    /// The type of a 64-bit unsigned integer.
    U64,
    /// The type of a 128-bit unsigned integer.
    U128,
    /// The type of a pointer-wide unsigned integer.
    Usize,
    /// The type of a signed byte.
    I8,
    /// The type of a 16-bit signed integer.
    I16,
    /// The type of a 32-bit signed integer.
    I32,
    /// The type of a 64-bit signed integer.
    I64,
    /// The type of a 128-bit signed integer.
    I128,
    /// The type of a pointer-wide signed integer.
    Isize,
    /// The type of a 32-bit floating-point number, by its bits.
    F32,
    /// The type of a 64-bit floating-point number, by its bits.
    F64,
}

/// A value of a primitive type.
#[derive(Clone, Copy, Debug, PartialEq, Eq)]
pub enum Scalar {
    /// A truth value.
    Bool(bool),
    /// An unsigned byte.
    U8(u8),
    /// A 16-bit unsigned integer.
    U16(u16),
    /// A 32-bit unsigned integer.
    U32(u32),
    /// A 64-bit unsigned integer.
    U64(u64),
    /// A 128-bit unsigned integer.
    U128(u128),
    /// A pointer-wide unsigned integer.
    Usize(usize),
    /// A signed byte.
    I8(i8),
    /// A 16-bit signed integer.
    I16(i16),
    /// A 32-bit signed integer.
    I32(i32),
    /// A 64-bit signed integer.
    I64(i64),
    /// A 128-bit signed integer.
    I128(i128),
    /// A pointer-wide signed integer.
    Isize(isize),
    /// A 32-bit floating-point number, by its bits.
    F32(u32),
    /// A 64-bit floating-point number, by its bits.
    F64(u64),
}

impl Scalar {
    /// The type this value is of.
    pub open spec fn prim(self) -> Prim {
        match self {
            Scalar::Bool(_) => Prim::Bool,
            Scalar::U8(_) => Prim::U8,
            Scalar::U16(_) => Prim::U16,
            Scalar::U32(_) => Prim::U32,
            Scalar::U64(_) => Prim::U64,
            Scalar::U128(_) => Prim::U128,
            Scalar::Usize(_) => Prim::Usize,
            Scalar::I8(_) => Prim::I8,
            Scalar::I16(_) => Prim::I16,
            Scalar::I32(_) => Prim::I32,
            Scalar::I64(_) => Prim::I64,
            Scalar::I128(_) => Prim::I128,
            Scalar::Isize(_) => Prim::Isize,
            Scalar::F32(_) => Prim::F32,
            Scalar::F64(_) => Prim::F64,
        }
    }

    /// The type this value is of.
    pub fn kind(&self) -> (p: Prim)
        ensures
            p == self.prim(),
    {
        match self {
            Scalar::Bool(_) => Prim::Bool,
            Scalar::U8(_) => Prim::U8,
            Scalar::U16(_) => Prim::U16,
            Scalar::U32(_) => Prim::U32,
            Scalar::U64(_) => Prim::U64,
            Scalar::U128(_) => Prim::U128,
            Scalar::Usize(_) => Prim::Usize,
            Scalar::I8(_) => Prim::I8,
            Scalar::I16(_) => Prim::I16,
            Scalar::I32(_) => Prim::I32,
            Scalar::I64(_) => Prim::I64,
            Scalar::I128(_) => Prim::I128,
            Scalar::Isize(_) => Prim::Isize,
            Scalar::F32(_) => Prim::F32,
            Scalar::F64(_) => Prim::F64,
        }
    }
}

impl DeepView for Scalar {
    type V = Scalar;

    open spec fn deep_view(&self) -> Scalar {
        *self
    }
}

impl Serialize for Scalar {
    /// The wire form of the value, as its type has it.
    open spec fn wire(&self) -> Seq<u8> {
        match *self {
            Scalar::Bool(v) => v.wire(),
            Scalar::U8(v) => v.wire(),
            Scalar::U16(v) => v.wire(),
            Scalar::U32(v) => v.wire(),
            Scalar::U64(v) => v.wire(),
            Scalar::U128(v) => v.wire(),
            Scalar::Usize(v) => v.wire(),
            Scalar::I8(v) => v.wire(),
            Scalar::I16(v) => v.wire(),
            Scalar::I32(v) => v.wire(),
            Scalar::I64(v) => v.wire(),
            Scalar::I128(v) => v.wire(),
            Scalar::Isize(v) => v.wire(),
            Scalar::F32(v) => F32Bits(v).wire(),
            Scalar::F64(v) => F64Bits(v).wire(),
        }
    }

    fn serialize(&self, stream: &mut SerStream) -> (res: Result<(), ()>) {
        match *self {
            Scalar::Bool(v) => v.serialize(stream),
            Scalar::U8(v) => v.serialize(stream),
            Scalar::U16(v) => v.serialize(stream),
            Scalar::U32(v) => v.serialize(stream),
            Scalar::U64(v) => v.serialize(stream),
            Scalar::U128(v) => v.serialize(stream),
            Scalar::Usize(v) => v.serialize(stream),
            Scalar::I8(v) => v.serialize(stream),
            Scalar::I16(v) => v.serialize(stream),
            Scalar::I32(v) => v.serialize(stream),
            Scalar::I64(v) => v.serialize(stream),
            Scalar::I128(v) => v.serialize(stream),
            Scalar::Isize(v) => v.serialize(stream),
            Scalar::F32(v) => F32Bits(v).serialize(stream),
            Scalar::F64(v) => F64Bits(v).serialize(stream),
        }
    }
}

/// What the front of `s` reads as, read as a value of type `prim`.
pub open spec fn parse_scalar(prim: Prim, s: Seq<u8>) -> Option<(Scalar, nat)> {
    match prim {
        Prim::Bool => match bool::parse(s) {
            Some((v, n)) => Some((Scalar::Bool(v), n)),
            None => None,
        },
        Prim::U8 => match u8::parse(s) {
            Some((v, n)) => Some((Scalar::U8(v), n)),
            None => None,
        },
        Prim::U16 => match u16::parse(s) {
            Some((v, n)) => Some((Scalar::U16(v), n)),
            None => None,
        },
        Prim::U32 => match u32::parse(s) {
            Some((v, n)) => Some((Scalar::U32(v), n)),
            None => None,
        },
        Prim::U64 => match u64::parse(s) {
            Some((v, n)) => Some((Scalar::U64(v), n)),
            None => None,
        },
        Prim::U128 => match u128::parse(s) {
            Some((v, n)) => Some((Scalar::U128(v), n)),
            None => None,
        },
        Prim::Usize => match usize::parse(s) {
            Some((v, n)) => Some((Scalar::Usize(v), n)),
            None => None,
        },
        Prim::I8 => match i8::parse(s) {
            Some((v, n)) => Some((Scalar::I8(v), n)),
            None => None,
        },
        Prim::I16 => match i16::parse(s) {
            Some((v, n)) => Some((Scalar::I16(v), n)),
            None => None,
        },
        Prim::I32 => match i32::parse(s) {
            Some((v, n)) => Some((Scalar::I32(v), n)),
            None => None,
        },
        Prim::I64 => match i64::parse(s) {
            Some((v, n)) => Some((Scalar::I64(v), n)),
            None => None,
        },
        Prim::I128 => match i128::parse(s) {
            Some((v, n)) => Some((Scalar::I128(v), n)),
            None => None,
        },
        Prim::Isize => match isize::parse(s) {
            Some((v, n)) => Some((Scalar::Isize(v), n)),
            None => None,
        },
        Prim::F32 => match F32Bits::parse(s) {
            Some((v, n)) => Some((Scalar::F32(v), n)),
            None => None,
        },
        Prim::F64 => match F64Bits::parse(s) {
            Some((v, n)) => Some((Scalar::F64(v), n)),
            None => None,
        },
    }
}

/// Reading a scalar is local.
pub proof fn lemma_parse_scalar_local(prim: Prim, s: Seq<u8>, t: Seq<u8>)
    ensures
        parse_scalar(prim, s) matches Some((v, n)) ==> n <= s.len() && v.prim() == prim
            && parse_scalar(prim, s.take(n as int) + t) == Some((v, n)),
{
    match prim {
        Prim::Bool => bool::lemma_parse_local(s, t),
        Prim::U8 => u8::lemma_parse_local(s, t),
        Prim::U16 => u16::lemma_parse_local(s, t),
        Prim::U32 => u32::lemma_parse_local(s, t),
        Prim::U64 => u64::lemma_parse_local(s, t),
        Prim::U128 => u128::lemma_parse_local(s, t),
        Prim::Usize => usize::lemma_parse_local(s, t),
        Prim::I8 => i8::lemma_parse_local(s, t),
        Prim::I16 => i16::lemma_parse_local(s, t),
        Prim::I32 => i32::lemma_parse_local(s, t),
        Prim::I64 => i64::lemma_parse_local(s, t),
        Prim::I128 => i128::lemma_parse_local(s, t),
        Prim::Isize => isize::lemma_parse_local(s, t),
        Prim::F32 => F32Bits::lemma_parse_local(s, t),
        Prim::F64 => F64Bits::lemma_parse_local(s, t),
    }
}

/// A scalar round-trips: what was written of it, followed by anything,
/// reads back, as a value of its type, as itself.
pub proof fn lemma_scalar_round_trip(value: Scalar, rest: Seq<u8>)
    ensures
        parse_scalar(value.prim(), value.wire() + rest) == Some((value, value.wire().len())),
{
    match value {
        Scalar::Bool(v) => v.lemma_round_trip(rest),
        Scalar::U8(v) => v.lemma_round_trip(rest),
        Scalar::U16(v) => v.lemma_round_trip(rest),
        Scalar::U32(v) => v.lemma_round_trip(rest),
        Scalar::U64(v) => v.lemma_round_trip(rest),
        Scalar::U128(v) => v.lemma_round_trip(rest),
        Scalar::Usize(v) => v.lemma_round_trip(rest),
        Scalar::I8(v) => v.lemma_round_trip(rest),
        Scalar::I16(v) => v.lemma_round_trip(rest),
        Scalar::I32(v) => v.lemma_round_trip(rest),
        Scalar::I64(v) => v.lemma_round_trip(rest),
        Scalar::I128(v) => v.lemma_round_trip(rest),
        Scalar::Isize(v) => v.lemma_round_trip(rest),
        Scalar::F32(v) => F32Bits(v).lemma_round_trip(rest),
        Scalar::F64(v) => F64Bits(v).lemma_round_trip(rest),
    }
}

/// Reads one value of type `prim` off the front of the stream.
pub fn deserialize_scalar(prim: Prim, stream: &mut DeserStream) -> (res: Result<Scalar, ()>)
    ensures
        match parse_scalar(prim, old(stream)@) {
            Some((v, n)) => res == Ok::<Scalar, ()>(v) && final(stream)@ == old(stream)@.skip(
                n as int,
            ),
            None => res is Err && final(stream)@.is_suffix_of(old(stream)@),
        },
{
    match prim {
        Prim::Bool => match bool::deserialize(stream) {
            Ok(v) => Ok(Scalar::Bool(v)),
            Err(_) => Err(()),
        },
        Prim::U8 => match u8::deserialize(stream) {
            Ok(v) => Ok(Scalar::U8(v)),
            Err(_) => Err(()),
        },
        Prim::U16 => match u16::deserialize(stream) {
            Ok(v) => Ok(Scalar::U16(v)),
            Err(_) => Err(()),
        },
        Prim::U32 => match u32::deserialize(stream) {
            Ok(v) => Ok(Scalar::U32(v)),
            Err(_) => Err(()),
        },
        Prim::U64 => match u64::deserialize(stream) {
            Ok(v) => Ok(Scalar::U64(v)),
            Err(_) => Err(()),
        },
        Prim::U128 => match u128::deserialize(stream) {
            Ok(v) => Ok(Scalar::U128(v)),
            Err(_) => Err(()),
        },
        Prim::Usize => match usize::deserialize(stream) {
            Ok(v) => Ok(Scalar::Usize(v)),
            Err(_) => Err(()),
        },
        Prim::I8 => match i8::deserialize(stream) {
            Ok(v) => Ok(Scalar::I8(v)),
            Err(_) => Err(()),
        },
        Prim::I16 => match i16::deserialize(stream) {
            Ok(v) => Ok(Scalar::I16(v)),
            Err(_) => Err(()),
        },
        Prim::I32 => match i32::deserialize(stream) {
            Ok(v) => Ok(Scalar::I32(v)),
            Err(_) => Err(()),
        },
        Prim::I64 => match i64::deserialize(stream) {
            Ok(v) => Ok(Scalar::I64(v)),
            Err(_) => Err(()),
        },
        Prim::I128 => match i128::deserialize(stream) {
            Ok(v) => Ok(Scalar::I128(v)),
            Err(_) => Err(()),
        },
        Prim::Isize => match isize::deserialize(stream) {
            Ok(v) => Ok(Scalar::Isize(v)),
            Err(_) => Err(()),
        },
        Prim::F32 => match F32Bits::deserialize(stream) {
            Ok(v) => Ok(Scalar::F32(v.0)),
            Err(_) => Err(()),
        },
        Prim::F64 => match F64Bits::deserialize(stream) {
            Ok(v) => Ok(Scalar::F64(v.0)),
            Err(_) => Err(()),
        },
    }
}

} // verus!
