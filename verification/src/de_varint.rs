//! Decoders of varints into the unsigned integers, and the inverse of the
//! zig-zag mapping.

use crate::ser_varint::varint_max;
use crate::stream::DeserStream;
use crate::wire::{
    failed_span, last_byte_max, lemma_group_fits, lemma_parse_groups_resume,
    lemma_prefix_value_bound, max_bytes, parse_groups, prefix_value, take_varint, unzigzag,
};
use vstd::arithmetic::div_mod::lemma_div_by_multiple;
use vstd::arithmetic::power2::{
    lemma2_to64, lemma_pow2_adds, lemma_pow2_pos, lemma_pow2_strictly_increases,
    lemma_pow2_unfold, pow2,
};
use vstd::bits::{
    lemma_u128_shr_is_div, lemma_u16_shl_is_mul, lemma_u16_shr_is_div, lemma_u32_shl_is_mul,
    lemma_u32_shr_is_div, lemma_u64_shl_is_mul, lemma_u64_shr_is_div, lemma_u8_shl_is_mul,
};
use vstd::layout::{layout_of_primitives, size_of};
use vstd::prelude::*;

verus! {

/// The largest value the last permitted byte of the varint of a `T` may
/// hold: as many low bits set as the bits of `T` leave over, seven to a byte.
pub fn max_of_last_byte<T: Sized>() -> (m: u8)
    requires
        size_of::<T>() * 8 <= usize::MAX,
    ensures
        m == last_byte_max(size_of::<T>() * 8),
{
    let max_bits: usize = core::mem::size_of::<T>() * 8;
    let extra_bits: u8 = (max_bits % 7) as u8;
    proof {
        lemma2_to64();
        lemma_u8_shl_is_mul(1, extra_bits);
    }
    (1u8 << extra_bits) - 1
}

proof fn lemma_byte_groups(val: u8)
    by (bit_vector)
    ensures
        (val & 0x7F) == val % 128,
        (val & 0x80) == 0 <==> val < 128,
{
}

proof fn lemma_u128_shl_is_mul(x: u128, shift: u128)
    requires
        shift < 128,
        x * pow2(shift as nat) <= u128::MAX,
    ensures
        x << shift == x * pow2(shift as nat),
    decreases shift,
{
    lemma2_to64();
    let prev: u128 = if shift == 0 { 0 } else { (shift - 1) as u128 };
    if shift > 0 {
        lemma_pow2_unfold(shift as nat);
        lemma_pow2_pos(prev as nat);
        assert(x * pow2(prev as nat) <= u128::MAX && x * pow2(shift as nat) == 2 * (x * pow2(
            prev as nat,
        ))) by (nonlinear_arith)
            requires
                x * pow2(shift as nat) <= u128::MAX,
                pow2(shift as nat) == 2 * pow2(prev as nat),
                pow2(prev as nat) > 0,
        ;
        lemma_u128_shl_is_mul(x, prev);
    }
    if shift == 0 {
        assert(x * pow2(0) == x) by (nonlinear_arith)
            requires
                pow2(0) == 1,
        ;
    }
    let half: u128 = x << prev;
    assert((shift == 0 ==> x << shift == x) && (shift > 0 && half
        <= 0x7fff_ffff_ffff_ffff_ffff_ffff_ffff_ffffu128 ==> x << shift == 2 * half))
        by (bit_vector)
        requires
            shift < 128,
            shift > 0 ==> prev == shift - 1,
            half == x << prev,
    ;
}

/// Inverse zig-zag into a `i16`: `(n >> 1) ^ -(n & 1)`, read as signed.
pub fn de_zig_zag_i16(n: u16) -> (i: i16)
    ensures
        i == unzigzag(n as nat),
{
    let shifted: u16 = n >> 1;
    let low: u16 = n & 0b1;
    assert(shifted == n / 2 && low == n % 2 && (0xffffu16 as i16) == -1 && ((shifted as i16) ^ 0i16)
        == shifted && ((shifted as i16) ^ (0xffffu16 as i16)) == -(shifted as i16) - 1)
        by (bit_vector)
        requires
            shifted == n >> 1u16,
            low == n & 1u16,
    ;
    let half: i16 = shifted as i16;
    let bit: i16 = low as i16;
    let mask: i16 = -bit;
    half ^ mask
}

/// Inverse zig-zag into a `i32`: `(n >> 1) ^ -(n & 1)`, read as signed.
pub fn de_zig_zag_i32(n: u32) -> (i: i32)
    ensures
        i == unzigzag(n as nat),
{
    let shifted: u32 = n >> 1;
    let low: u32 = n & 0b1;
    assert(shifted == n / 2 && low == n % 2 && (0xffff_ffffu32 as i32) == -1 && ((shifted as i32) ^ 0i32)
        == shifted && ((shifted as i32) ^ (0xffff_ffffu32 as i32)) == -(shifted as i32) - 1)
        by (bit_vector)
        requires
            shifted == n >> 1u32,
            low == n & 1u32,
    ;
    let half: i32 = shifted as i32;
    let bit: i32 = low as i32;
    let mask: i32 = -bit;
    half ^ mask
}

/// Inverse zig-zag into a `i64`: `(n >> 1) ^ -(n & 1)`, read as signed.
pub fn de_zig_zag_i64(n: u64) -> (i: i64)
    ensures
        i == unzigzag(n as nat),
{
    let shifted: u64 = n >> 1;
    let low: u64 = n & 0b1;
    assert(shifted == n / 2 && low == n % 2 && (0xffff_ffff_ffff_ffffu64 as i64) == -1 && ((shifted as i64) ^ 0i64)
        == shifted && ((shifted as i64) ^ (0xffff_ffff_ffff_ffffu64 as i64)) == -(shifted as i64) - 1)
        by (bit_vector)
        requires
            shifted == n >> 1u64,
            low == n & 1u64,
    ;
    let half: i64 = shifted as i64;
    let bit: i64 = low as i64;
    let mask: i64 = -bit;
    half ^ mask
}

/// Inverse zig-zag into a `i128`: `(n >> 1) ^ -(n & 1)`, read as signed.
pub fn de_zig_zag_i128(n: u128) -> (i: i128)
    ensures
        i == unzigzag(n as nat),
{
    let shifted: u128 = n >> 1;
    let low: u128 = n & 0b1;
    assert(shifted == n / 2 && low == n % 2 && (0xffff_ffff_ffff_ffff_ffff_ffff_ffff_ffffu128 as i128) == -1 && ((shifted as i128) ^ 0i128)
        == shifted && ((shifted as i128) ^ (0xffff_ffff_ffff_ffff_ffff_ffff_ffff_ffffu128 as i128)) == -(shifted as i128) - 1)
        by (bit_vector)
        requires
            shifted == n >> 1u128,
            low == n & 1u128,
    ;
    let half: i128 = shifted as i128;
    let bit: i128 = low as i128;
    let mask: i128 = -bit;
    half ^ mask
}

/// Reads the varint of a `usize`: that of the unsigned integer as wide as
/// a pointer.
pub fn try_take_varint_usize(data: &mut DeserStream) -> (res: Result<usize, ()>)
    ensures
        match take_varint(old(data)@, usize::BITS as nat) {
            Some((v, n)) => res matches Ok(r) && r == v && final(data)@ == old(data)@.skip(
                n as int,
            ),
            None => res is Err && final(data)@ == old(data)@.skip(
                failed_span(old(data)@, usize::BITS as nat) as int,
            ),
        },
{
    broadcast use layout_of_primitives;

    if core::mem::size_of::<usize>() == 8 {
        match try_take_varint_u64(data) {
            Ok(u) => Ok(u as usize),
            Err(e) => Err(e),
        }
    } else {
        match try_take_varint_u32(data) {
            Ok(u) => Ok(u as usize),
            Err(e) => Err(e),
        }
    }
}

proof fn lemma_merge_u16(acc: u16, carry: u16, shift: u16)
    by (bit_vector)
    requires
        shift < 16,
        acc < (1u16 << shift),
        (carry << shift) >> shift == carry,
    ensures
        (acc | (carry << shift)) == acc + (carry << shift),
{
}

proof fn lemma_accumulate_u16(acc: u16, carry: u16, i: nat)
    requires
        i < max_bytes(16),
        acc < pow2(7 * i),
        carry < 128,
        i + 1 == max_bytes(16) ==> carry <= last_byte_max(16),
    ensures
        (acc | (carry << ((7 * i) as u16))) == acc + carry * pow2(7 * i),
{
    lemma2_to64();
    
    let shift = (7 * i) as u16;
    let unit = pow2(7 * i);
    lemma_group_fits(acc as nat, carry as nat, i, 16);
    lemma_pow2_pos(7 * i);
    lemma_pow2_strictly_increases(7 * i, 16);
    assert(unit <= u16::MAX && carry * unit <= u16::MAX);
    assert(1 * unit == unit);
    lemma_u16_shl_is_mul(1, shift);
    lemma_u16_shl_is_mul(carry, shift);
    lemma_u16_shr_is_div((carry << shift) as u16, shift);
    lemma_div_by_multiple(carry as int, unit as int);
    lemma_merge_u16(acc, carry, shift);
}

/// Reads the varint of a `u16` and advances past it. Fails where the stream
/// ends inside the varint, where the varint runs on past its 3 permitted
/// bytes, or where its last permitted byte holds more than the bits that
/// are left; the stream has then passed over the bytes it looked at.
pub fn try_take_varint_u16(data: &mut DeserStream) -> (res: Result<u16, ()>)
    ensures
        match take_varint(old(data)@, 16) {
            Some((v, n)) => res matches Ok(r) && r == v && final(data)@ == old(data)@.skip(
                n as int,
            ),
            None => res is Err && final(data)@ == old(data)@.skip(
                failed_span(old(data)@, 16) as int,
            ),
        },
{
    broadcast use layout_of_primitives;

    let ghost s0 = data@;
    let max: usize = varint_max::<u16>();
    let last: u8 = max_of_last_byte::<u16>();
    let mut out: u16 = 0;
    let mut i: usize = 0;
    proof {
        assert(s0.skip(0) =~= s0);
    }
    while i < max
        invariant
            s0 == old(data)@,
            max == max_bytes(16),
            max == 3,
            last == last_byte_max(16),
            i <= max,
            i <= s0.len(),
            data@ == s0.skip(i as int),
            forall|k: int| 0 <= k < i ==> #[trigger] s0[k] >= 128,
            i < max ==> out == prefix_value(s0, i as nat),
        decreases max - i,
    {
        proof {
            lemma_parse_groups_resume(s0, i as nat, max as nat, last as nat);
            lemma_prefix_value_bound(s0, i as nat);
        }
        let val: u8 = match data.pop_one() {
            Ok(val) => val,
            Err(_) => {
                return Err(());
            },
        };
        let carry: u16 = (val & 0x7F) as u16;
        let shift: u16 = (7 * i) as u16;
        let merged: u16 = out | (carry << shift);
        proof {
            lemma_byte_groups(val);
            assert(s0.skip(i as int)[0] == s0[i as int]);
            assert(s0.skip(i as int).skip(1) =~= s0.skip(i + 1));
            if i + 1 < max || carry <= last {
                lemma_accumulate_u16(out, carry, i as nat);
                assert(merged == prefix_value(s0, (i + 1) as nat));
            }
        }
        out = merged;
        if (val & 0x80) == 0 {
            if i == max - 1 && val > last {
                return Err(());
            } else {
                proof {
                    assert(pow2(7 * i as nat) * (val as nat) == (val as nat) * pow2(7 * i as nat))
                        by (nonlinear_arith);
                }
                return Ok(out);
            }
        }
        i = i + 1;
    }
    proof {
        lemma_parse_groups_resume(s0, max as nat, max as nat, last as nat);
    }
    Err(())
}

proof fn lemma_merge_u32(acc: u32, carry: u32, shift: u32)
    by (bit_vector)
    requires
        shift < 32,
        acc < (1u32 << shift),
        (carry << shift) >> shift == carry,
    ensures
        (acc | (carry << shift)) == acc + (carry << shift),
{
}

proof fn lemma_accumulate_u32(acc: u32, carry: u32, i: nat)
    requires
        i < max_bytes(32),
        acc < pow2(7 * i),
        carry < 128,
        i + 1 == max_bytes(32) ==> carry <= last_byte_max(32),
    ensures
        (acc | (carry << ((7 * i) as u32))) == acc + carry * pow2(7 * i),
{
    lemma2_to64();
    
    let shift = (7 * i) as u32;
    let unit = pow2(7 * i);
    lemma_group_fits(acc as nat, carry as nat, i, 32);
    lemma_pow2_pos(7 * i);
    lemma_pow2_strictly_increases(7 * i, 32);
    assert(unit <= u32::MAX && carry * unit <= u32::MAX);
    assert(1 * unit == unit);
    lemma_u32_shl_is_mul(1, shift);
    lemma_u32_shl_is_mul(carry, shift);
    lemma_u32_shr_is_div((carry << shift) as u32, shift);
    lemma_div_by_multiple(carry as int, unit as int);
    lemma_merge_u32(acc, carry, shift);
}

/// Reads the varint of a `u32` and advances past it. Fails where the stream
/// ends inside the varint, where the varint runs on past its 5 permitted
/// bytes, or where its last permitted byte holds more than the bits that
/// are left; the stream has then passed over the bytes it looked at.
pub fn try_take_varint_u32(data: &mut DeserStream) -> (res: Result<u32, ()>)
    ensures
        match take_varint(old(data)@, 32) {
            Some((v, n)) => res matches Ok(r) && r == v && final(data)@ == old(data)@.skip(
                n as int,
            ),
            None => res is Err && final(data)@ == old(data)@.skip(
                failed_span(old(data)@, 32) as int,
            ),
        },
{
    broadcast use layout_of_primitives;

    let ghost s0 = data@;
    let max: usize = varint_max::<u32>();
    let last: u8 = max_of_last_byte::<u32>();
    let mut out: u32 = 0;
    let mut i: usize = 0;
    proof {
        assert(s0.skip(0) =~= s0);
    }
    while i < max
        invariant
            s0 == old(data)@,
            max == max_bytes(32),
            max == 5,
            last == last_byte_max(32),
            i <= max,
            i <= s0.len(),
            data@ == s0.skip(i as int),
            forall|k: int| 0 <= k < i ==> #[trigger] s0[k] >= 128,
            i < max ==> out == prefix_value(s0, i as nat),
        decreases max - i,
    {
        proof {
            lemma_parse_groups_resume(s0, i as nat, max as nat, last as nat);
            lemma_prefix_value_bound(s0, i as nat);
        }
        let val: u8 = match data.pop_one() {
            Ok(val) => val,
            Err(_) => {
                return Err(());
            },
        };
        let carry: u32 = (val & 0x7F) as u32;
        let shift: u32 = (7 * i) as u32;
        let merged: u32 = out | (carry << shift);
        proof {
            lemma_byte_groups(val);
            assert(s0.skip(i as int)[0] == s0[i as int]);
            assert(s0.skip(i as int).skip(1) =~= s0.skip(i + 1));
            if i + 1 < max || carry <= last {
                lemma_accumulate_u32(out, carry, i as nat);
                assert(merged == prefix_value(s0, (i + 1) as nat));
            }
        }
        out = merged;
        if (val & 0x80) == 0 {
            if i == max - 1 && val > last {
                return Err(());
            } else {
                proof {
                    assert(pow2(7 * i as nat) * (val as nat) == (val as nat) * pow2(7 * i as nat))
                        by (nonlinear_arith);
                }
                return Ok(out);
            }
        }
        i = i + 1;
    }
    proof {
        lemma_parse_groups_resume(s0, max as nat, max as nat, last as nat);
    }
    Err(())
}

proof fn lemma_merge_u64(acc: u64, carry: u64, shift: u64)
    by (bit_vector)
    requires
        shift < 64,
        acc < (1u64 << shift),
        (carry << shift) >> shift == carry,
    ensures
        (acc | (carry << shift)) == acc + (carry << shift),
{
}

proof fn lemma_accumulate_u64(acc: u64, carry: u64, i: nat)
    requires
        i < max_bytes(64),
        acc < pow2(7 * i),
        carry < 128,
        i + 1 == max_bytes(64) ==> carry <= last_byte_max(64),
    ensures
        (acc | (carry << ((7 * i) as u64))) == acc + carry * pow2(7 * i),
{
    lemma2_to64();
    
    let shift = (7 * i) as u64;
    let unit = pow2(7 * i);
    lemma_group_fits(acc as nat, carry as nat, i, 64);
    lemma_pow2_pos(7 * i);
    lemma_pow2_strictly_increases(7 * i, 64);
    assert(unit <= u64::MAX && carry * unit <= u64::MAX);
    assert(1 * unit == unit);
    lemma_u64_shl_is_mul(1, shift);
    lemma_u64_shl_is_mul(carry, shift);
    lemma_u64_shr_is_div((carry << shift) as u64, shift);
    lemma_div_by_multiple(carry as int, unit as int);
    lemma_merge_u64(acc, carry, shift);
}

/// Reads the varint of a `u64` and advances past it. Fails where the stream
/// ends inside the varint, where the varint runs on past its 10 permitted
/// bytes, or where its last permitted byte holds more than the bits that
/// are left; the stream has then passed over the bytes it looked at.
pub fn try_take_varint_u64(data: &mut DeserStream) -> (res: Result<u64, ()>)
    ensures
        match take_varint(old(data)@, 64) {
            Some((v, n)) => res matches Ok(r) && r == v && final(data)@ == old(data)@.skip(
                n as int,
            ),
            None => res is Err && final(data)@ == old(data)@.skip(
                failed_span(old(data)@, 64) as int,
            ),
        },
{
    broadcast use layout_of_primitives;

    let ghost s0 = data@;
    let max: usize = varint_max::<u64>();
    let last: u8 = max_of_last_byte::<u64>();
    let mut out: u64 = 0;
    let mut i: usize = 0;
    proof {
        assert(s0.skip(0) =~= s0);
    }
    while i < max
        invariant
            s0 == old(data)@,
            max == max_bytes(64),
            max == 10,
            last == last_byte_max(64),
            i <= max,
            i <= s0.len(),
            data@ == s0.skip(i as int),
            forall|k: int| 0 <= k < i ==> #[trigger] s0[k] >= 128,
            i < max ==> out == prefix_value(s0, i as nat),
        decreases max - i,
    {
        proof {
            lemma_parse_groups_resume(s0, i as nat, max as nat, last as nat);
            lemma_prefix_value_bound(s0, i as nat);
        }
        let val: u8 = match data.pop_one() {
            Ok(val) => val,
            Err(_) => {
                return Err(());
            },
        };
        let carry: u64 = (val & 0x7F) as u64;
        let shift: u64 = (7 * i) as u64;
        let merged: u64 = out | (carry << shift);
        proof {
            lemma_byte_groups(val);
            assert(s0.skip(i as int)[0] == s0[i as int]);
            assert(s0.skip(i as int).skip(1) =~= s0.skip(i + 1));
            if i + 1 < max || carry <= last {
                lemma_accumulate_u64(out, carry, i as nat);
                assert(merged == prefix_value(s0, (i + 1) as nat));
            }
        }
        out = merged;
        if (val & 0x80) == 0 {
            if i == max - 1 && val > last {
                return Err(());
            } else {
                proof {
                    assert(pow2(7 * i as nat) * (val as nat) == (val as nat) * pow2(7 * i as nat))
                        by (nonlinear_arith);
                }
                return Ok(out);
            }
        }
        i = i + 1;
    }
    proof {
        lemma_parse_groups_resume(s0, max as nat, max as nat, last as nat);
    }
    Err(())
}

proof fn lemma_merge_u128(acc: u128, carry: u128, shift: u128)
    by (bit_vector)
    requires
        shift < 128,
        acc < (1u128 << shift),
        (carry << shift) >> shift == carry,
    ensures
        (acc | (carry << shift)) == acc + (carry << shift),
{
}

proof fn lemma_accumulate_u128(acc: u128, carry: u128, i: nat)
    requires
        i < max_bytes(128),
        acc < pow2(7 * i),
        carry < 128,
        i + 1 == max_bytes(128) ==> carry <= last_byte_max(128),
    ensures
        (acc | (carry << ((7 * i) as u128))) == acc + carry * pow2(7 * i),
{
    lemma2_to64();
    lemma_pow2_adds(64, 64);
    assert(pow2(128) == 0x1_0000_0000_0000_0000_0000_0000_0000_0000) by (nonlinear_arith)
        requires
            pow2(128) == pow2(64) * pow2(64),
            pow2(64) == 0x1_0000_0000_0000_0000,
    ;
    let shift = (7 * i) as u128;
    let unit = pow2(7 * i);
    lemma_group_fits(acc as nat, carry as nat, i, 128);
    lemma_pow2_pos(7 * i);
    lemma_pow2_strictly_increases(7 * i, 128);
    assert(unit <= u128::MAX && carry * unit <= u128::MAX);
    assert(1 * unit == unit);
    lemma_u128_shl_is_mul(1, shift);
    lemma_u128_shl_is_mul(carry, shift);
    lemma_u128_shr_is_div((carry << shift) as u128, shift);
    lemma_div_by_multiple(carry as int, unit as int);
    lemma_merge_u128(acc, carry, shift);
}

/// Reads the varint of a `u128` and advances past it. Fails where the stream
/// ends inside the varint, where the varint runs on past its 19 permitted
/// bytes, or where its last permitted byte holds more than the bits that
/// are left; the stream has then passed over the bytes it looked at.
pub fn try_take_varint_u128(data: &mut DeserStream) -> (res: Result<u128, ()>)
    ensures
        match take_varint(old(data)@, 128) {
            Some((v, n)) => res matches Ok(r) && r == v && final(data)@ == old(data)@.skip(
                n as int,
            ),
            None => res is Err && final(data)@ == old(data)@.skip(
                failed_span(old(data)@, 128) as int,
            ),
        },
{
    broadcast use layout_of_primitives;

    let ghost s0 = data@;
    let max: usize = varint_max::<u128>();
    let last: u8 = max_of_last_byte::<u128>();
    let mut out: u128 = 0;
    let mut i: usize = 0;
    proof {
        assert(s0.skip(0) =~= s0);
    }
    while i < max
        invariant
            s0 == old(data)@,
            max == max_bytes(128),
            max == 19,
            last == last_byte_max(128),
            i <= max,
            i <= s0.len(),
            data@ == s0.skip(i as int),
            forall|k: int| 0 <= k < i ==> #[trigger] s0[k] >= 128,
            i < max ==> out == prefix_value(s0, i as nat),
        decreases max - i,
    {
        proof {
            lemma_parse_groups_resume(s0, i as nat, max as nat, last as nat);
            lemma_prefix_value_bound(s0, i as nat);
        }
        let val: u8 = match data.pop_one() {
            Ok(val) => val,
            Err(_) => {
                return Err(());
            },
        };
        let carry: u128 = (val & 0x7F) as u128;
        let shift: u128 = (7 * i) as u128;
        let merged: u128 = out | (carry << shift);
        proof {
            lemma_byte_groups(val);
            assert(s0.skip(i as int)[0] == s0[i as int]);
            assert(s0.skip(i as int).skip(1) =~= s0.skip(i + 1));
            if i + 1 < max || carry <= last {
                lemma_accumulate_u128(out, carry, i as nat);
                assert(merged == prefix_value(s0, (i + 1) as nat));
            }
        }
        out = merged;
        if (val & 0x80) == 0 {
            if i == max - 1 && val > last {
                return Err(());
            } else {
                proof {
                    assert(pow2(7 * i as nat) * (val as nat) == (val as nat) * pow2(7 * i as nat))
                        by (nonlinear_arith);
                }
                return Ok(out);
            }
        }
        i = i + 1;
    }
    proof {
        lemma_parse_groups_resume(s0, max as nat, max as nat, last as nat);
    }
    Err(())
}

} // verus!
