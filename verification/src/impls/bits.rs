//! Wire forms of the floating-point numbers, by their bit patterns: the
//! IEEE-754 bits of a number as raw little-endian bytes, four or eight.

use crate::impls::scalars::lemma_skip_is_suffix;
use crate::stream::{DeserStream, SerStream};
use crate::traits::{Deserialize, RoundTrip, Serialize};
use vstd::prelude::*;

verus! {

/// The bit pattern of a 32-bit floating-point number.
#[derive(Clone, Copy, Debug, PartialEq, Eq)]
pub struct F32Bits(pub u32);

/// The bit pattern of a 64-bit floating-point number.
#[derive(Clone, Copy, Debug, PartialEq, Eq)]
pub struct F64Bits(pub u64);

impl DeepView for F32Bits {
    type V = u32;

    open spec fn deep_view(&self) -> u32 {
        self.0
    }
}

impl DeepView for F64Bits {
    type V = u64;

    open spec fn deep_view(&self) -> u64 {
        self.0
    }
}

/// The four bytes of `v`, least significant first.
pub open spec fn le_bytes_u32(v: u32) -> Seq<u8> {
    seq![
        (v % 0x100) as u8,
        (v / 0x100 % 0x100) as u8,
        (v / 0x1_0000 % 0x100) as u8,
        (v / 0x100_0000 % 0x100) as u8,
    ]
}

/// The number that the first four bytes of `s` spell, least significant
/// first.
pub open spec fn le_value_u32(s: Seq<u8>) -> u32 {
    (s[0] + 0x100 * s[1] + 0x1_0000 * s[2] + 0x100_0000 * s[3]) as u32
}

/// The eight bytes of `v`, least significant first.
pub open spec fn le_bytes_u64(v: u64) -> Seq<u8> {
    seq![
        (v % 0x100) as u8,
        (v / 0x100 % 0x100) as u8,
        (v / 0x1_0000 % 0x100) as u8,
        (v / 0x100_0000 % 0x100) as u8,
        (v / 0x1_0000_0000 % 0x100) as u8,
        (v / 0x100_0000_0000 % 0x100) as u8,
        (v / 0x1_0000_0000_0000 % 0x100) as u8,
        (v / 0x100_0000_0000_0000 % 0x100) as u8,
    ]
}

/// The number that the first eight bytes of `s` spell, least significant
/// first.
pub open spec fn le_value_u64(s: Seq<u8>) -> u64 {
    (s[0] + 0x100 * s[1] + 0x1_0000 * s[2] + 0x100_0000 * s[3] + 0x1_0000_0000 * s[4]
        + 0x100_0000_0000 * s[5] + 0x1_0000_0000_0000 * s[6] + 0x100_0000_0000_0000 * s[7]) as u64
}

impl Serialize for F32Bits {
    /// The four bytes of the pattern, least significant first.
    open spec fn wire(&self) -> Seq<u8> {
        le_bytes_u32(self.0)
    }

    fn serialize(&self, stream: &mut SerStream) -> (res: Result<(), ()>) {
        let val: u32 = self.0;
        let b0: u8 = #[verifier::truncate]
        (val as u8);
        let b1: u8 = #[verifier::truncate]
        ((val >> 8) as u8);
        let b2: u8 = #[verifier::truncate]
        ((val >> 16) as u8);
        let b3: u8 = #[verifier::truncate]
        ((val >> 24) as u8);
        assert(b0 == val % 0x100 && b1 == val / 0x100 % 0x100 && b2 == val / 0x1_0000 % 0x100 && b3
            == val / 0x100_0000 % 0x100) by (bit_vector)
            requires
                b0 == val as u8,
                b1 == (val >> 8) as u8,
                b2 == (val >> 16) as u8,
                b3 == (val >> 24) as u8,
        ;
        let bytes: [u8; 4] = [b0, b1, b2, b3];
        proof {
            assert(bytes@ =~= self.wire());
            stream@.lemma_put_empty();
            assert(self.wire().take(0) =~= Seq::<u8>::empty());
        }
        stream.push_n(bytes.as_slice())
    }
}

impl Deserialize for F32Bits {
    /// Four bytes, whatever they hold.
    open spec fn parse(s: Seq<u8>) -> Option<(u32, nat)> {
        if s.len() >= 4 {
            Some((le_value_u32(s), 4nat))
        } else {
            None
        }
    }

    proof fn lemma_parse_local(s: Seq<u8>, t: Seq<u8>) {
    }

    fn deserialize(stream: &mut DeserStream) -> (res: Result<F32Bits, ()>) {
        proof {
            lemma_skip_is_suffix(stream@, 0);
            assert(stream@.skip(0) =~= stream@);
        }
        if let Ok(bytes) = stream.pop_n(4) {
            let b0: u32 = bytes[0] as u32;
            let b1: u32 = bytes[1] as u32;
            let b2: u32 = bytes[2] as u32;
            let b3: u32 = bytes[3] as u32;
            let val: u32 = b0 | (b1 << 8) | (b2 << 16) | (b3 << 24);
            assert(val == b0 + 0x100 * b1 + 0x1_0000 * b2 + 0x100_0000 * b3) by (bit_vector)
                requires
                    val == b0 | (b1 << 8) | (b2 << 16) | (b3 << 24),
                    b0 < 0x100,
                    b1 < 0x100,
                    b2 < 0x100,
                    b3 < 0x100,
            ;
            Ok(F32Bits(val))
        } else {
            Err(())
        }
    }
}

impl RoundTrip for F32Bits {
    proof fn lemma_round_trip(&self, rest: Seq<u8>) {
    }
}

impl Serialize for F64Bits {
    /// The eight bytes of the pattern, least significant first.
    open spec fn wire(&self) -> Seq<u8> {
        le_bytes_u64(self.0)
    }

    fn serialize(&self, stream: &mut SerStream) -> (res: Result<(), ()>) {
        let val: u64 = self.0;
        let b0: u8 = #[verifier::truncate]
        (val as u8);
        let b1: u8 = #[verifier::truncate]
        ((val >> 8) as u8);
        let b2: u8 = #[verifier::truncate]
        ((val >> 16) as u8);
        let b3: u8 = #[verifier::truncate]
        ((val >> 24) as u8);
        let b4: u8 = #[verifier::truncate]
        ((val >> 32) as u8);
        let b5: u8 = #[verifier::truncate]
        ((val >> 40) as u8);
        let b6: u8 = #[verifier::truncate]
        ((val >> 48) as u8);
        let b7: u8 = #[verifier::truncate]
        ((val >> 56) as u8);
        assert(b0 == val % 0x100 && b1 == val / 0x100 % 0x100 && b2 == val / 0x1_0000 % 0x100 && b3
            == val / 0x100_0000 % 0x100 && b4 == val / 0x1_0000_0000 % 0x100 && b5 == val
            / 0x100_0000_0000 % 0x100 && b6 == val / 0x1_0000_0000_0000 % 0x100 && b7 == val
            / 0x100_0000_0000_0000 % 0x100) by (bit_vector)
            requires
                b0 == val as u8,
                b1 == (val >> 8) as u8,
                b2 == (val >> 16) as u8,
                b3 == (val >> 24) as u8,
                b4 == (val >> 32) as u8,
                b5 == (val >> 40) as u8,
                b6 == (val >> 48) as u8,
                b7 == (val >> 56) as u8,
        ;
        let bytes: [u8; 8] = [b0, b1, b2, b3, b4, b5, b6, b7];
        proof {
            assert(bytes@ =~= self.wire());
            stream@.lemma_put_empty();
            assert(self.wire().take(0) =~= Seq::<u8>::empty());
        }
        stream.push_n(bytes.as_slice())
    }
}

impl Deserialize for F64Bits {
    /// Eight bytes, whatever they hold.
    open spec fn parse(s: Seq<u8>) -> Option<(u64, nat)> {
        if s.len() >= 8 {
            Some((le_value_u64(s), 8nat))
        } else {
            None
        }
    }

    proof fn lemma_parse_local(s: Seq<u8>, t: Seq<u8>) {
    }

    fn deserialize(stream: &mut DeserStream) -> (res: Result<F64Bits, ()>) {
        proof {
            lemma_skip_is_suffix(stream@, 0);
            assert(stream@.skip(0) =~= stream@);
        }
        if let Ok(bytes) = stream.pop_n(8) {
            let b0: u64 = bytes[0] as u64;
            let b1: u64 = bytes[1] as u64;
            let b2: u64 = bytes[2] as u64;
            let b3: u64 = bytes[3] as u64;
            let b4: u64 = bytes[4] as u64;
            let b5: u64 = bytes[5] as u64;
            let b6: u64 = bytes[6] as u64;
            let b7: u64 = bytes[7] as u64;
            let val: u64 = b0 | (b1 << 8) | (b2 << 16) | (b3 << 24) | (b4 << 32) | (b5 << 40) | (b6
                << 48) | (b7 << 56);
            assert(val == b0 + 0x100 * b1 + 0x1_0000 * b2 + 0x100_0000 * b3 + 0x1_0000_0000 * b4
                + 0x100_0000_0000 * b5 + 0x1_0000_0000_0000 * b6 + 0x100_0000_0000_0000 * b7)
                by (bit_vector)
                requires
                    val == b0 | (b1 << 8) | (b2 << 16) | (b3 << 24) | (b4 << 32) | (b5 << 40) | (b6
                        << 48) | (b7 << 56),
                    b0 < 0x100,
                    b1 < 0x100,
                    b2 < 0x100,
                    b3 < 0x100,
                    b4 < 0x100,
                    b5 < 0x100,
                    b6 < 0x100,
                    b7 < 0x100,
            ;
            Ok(F64Bits(val))
        } else {
            Err(())
        }
    }
}

impl RoundTrip for F64Bits {
    proof fn lemma_round_trip(&self, rest: Seq<u8>) {
        let v = self.0;
        let whole = self.wire() + rest;
        assert(whole[0] == self.wire()[0] && whole[1] == self.wire()[1] && whole[2]
            == self.wire()[2] && whole[3] == self.wire()[3] && whole[4] == self.wire()[4]
            && whole[5] == self.wire()[5] && whole[6] == self.wire()[6] && whole[7]
            == self.wire()[7]);
        assert(v == v % 0x100 + 0x100 * (v / 0x100 % 0x100) + 0x1_0000 * (v / 0x1_0000 % 0x100)
            + 0x100_0000 * (v / 0x100_0000 % 0x100) + 0x1_0000_0000 * (v / 0x1_0000_0000 % 0x100)
            + 0x100_0000_0000 * (v / 0x100_0000_0000 % 0x100) + 0x1_0000_0000_0000 * (v
            / 0x1_0000_0000_0000 % 0x100) + 0x100_0000_0000_0000 * (v / 0x100_0000_0000_0000
            % 0x100)) by (bit_vector);
    }
}

} // verus!
