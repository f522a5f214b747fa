//! Encoders of the unsigned integers as varints, and the zig-zag mapping
//! that lets the signed ones reuse them.

use crate::stream::SerStream;
use crate::wire::{max_bytes, varint, zigzag};
use vstd::layout::size_of;
use vstd::prelude::*;

verus! {

/// The most bytes the varint of a `T` may take: its bits, seven to a byte,
/// rounded up.
pub fn varint_max<T: Sized>() -> (n: usize)
    requires
        size_of::<T>() * 8 + 6 <= usize::MAX,
    ensures
        n == max_bytes(size_of::<T>() * 8),
{
    let bits: usize = core::mem::size_of::<T>() * 8;
    let roundup_bits: usize = bits + 6;
    roundup_bits / 7
}

proof fn lemma_group_usize(v: usize)
    by (bit_vector)
    ensures
        ((v as u8) | 0x80u8) == v % 128 + 128,
        v >> 7 == v / 128,
        v < 128 ==> (v as u8) == v,
{
}

/// Appends the varint of `value`. Fails where it does not fit; the stream
/// then holds as much of the varint as did fit, and is full.
pub fn varint_usize(value: usize, out: &mut SerStream) -> (res: Result<(), ()>)
    ensures
        res is Ok <==> varint(value as nat).len() <= old(out)@.room(),
        res is Ok ==> final(out)@ == old(out)@.put(varint(value as nat)),
        res is Err ==> final(out)@ == old(out)@.put(
            varint(value as nat).take(old(out)@.room() as int),
        ),
{
    let ghost start = out@;
    let ghost whole = varint(value as nat);
    let ghost mut done: Seq<u8> = Seq::empty();
    let mut left: usize = value;
    proof {
        start.lemma_put_empty();
        assert(whole =~= done + varint(left as nat));
    }
    loop
        invariant
            start == old(out)@,
            whole == varint(value as nat),
            whole == done + varint(left as nat),
            done.len() <= start.room(),
            out@ == start.put(done),
        decreases left,
    {
        let now: u8 = #[verifier::truncate]
        (left as u8);
        proof {
            lemma_group_usize(left);
            assert(done =~= whole.take(done.len() as int));
            start.lemma_put_room(done);
        }
        if left < 128 {
            let res = out.push_one(now);
            proof {
                if res is Ok {
                    start.lemma_put_put(done, seq![now]);
                }
            }
            return res;
        } else {
            let more: u8 = now | 0x80;
            if out.push_one(more).is_err() {
                return Err(());
            }
            proof {
                start.lemma_put_put(done, seq![more]);
                assert(whole =~= (done + seq![more]) + varint((left / 128) as nat));
                done = done + seq![more];
            }
        }
        left = left >> 7;
    }
}

proof fn lemma_group_u16(v: u16)
    by (bit_vector)
    ensures
        ((v as u8) | 0x80u8) == v % 128 + 128,
        v >> 7 == v / 128,
        v < 128 ==> (v as u8) == v,
{
}

/// Appends the varint of `value`. Fails where it does not fit; the stream
/// then holds as much of the varint as did fit, and is full.
pub fn varint_u16(value: u16, out: &mut SerStream) -> (res: Result<(), ()>)
    ensures
        res is Ok <==> varint(value as nat).len() <= old(out)@.room(),
        res is Ok ==> final(out)@ == old(out)@.put(varint(value as nat)),
        res is Err ==> final(out)@ == old(out)@.put(
            varint(value as nat).take(old(out)@.room() as int),
        ),
{
    let ghost start = out@;
    let ghost whole = varint(value as nat);
    let ghost mut done: Seq<u8> = Seq::empty();
    let mut left: u16 = value;
    proof {
        start.lemma_put_empty();
        assert(whole =~= done + varint(left as nat));
    }
    loop
        invariant
            start == old(out)@,
            whole == varint(value as nat),
            whole == done + varint(left as nat),
            done.len() <= start.room(),
            out@ == start.put(done),
        decreases left,
    {
        let now: u8 = #[verifier::truncate]
        (left as u8);
        proof {
            lemma_group_u16(left);
            assert(done =~= whole.take(done.len() as int));
            start.lemma_put_room(done);
        }
        if left < 128 {
            let res = out.push_one(now);
            proof {
                if res is Ok {
                    start.lemma_put_put(done, seq![now]);
                }
            }
            return res;
        } else {
            let more: u8 = now | 0x80;
            if out.push_one(more).is_err() {
                return Err(());
            }
            proof {
                start.lemma_put_put(done, seq![more]);
                assert(whole =~= (done + seq![more]) + varint((left / 128) as nat));
                done = done + seq![more];
            }
        }
        left = left >> 7;
    }
}

proof fn lemma_group_u32(v: u32)
    by (bit_vector)
    ensures
        ((v as u8) | 0x80u8) == v % 128 + 128,
        v >> 7 == v / 128,
        v < 128 ==> (v as u8) == v,
{
}

/// Appends the varint of `value`. Fails where it does not fit; the stream
/// then holds as much of the varint as did fit, and is full.
pub fn varint_u32(value: u32, out: &mut SerStream) -> (res: Result<(), ()>)
    ensures
        res is Ok <==> varint(value as nat).len() <= old(out)@.room(),
        res is Ok ==> final(out)@ == old(out)@.put(varint(value as nat)),
        res is Err ==> final(out)@ == old(out)@.put(
            varint(value as nat).take(old(out)@.room() as int),
        ),
{
    let ghost start = out@;
    let ghost whole = varint(value as nat);
    let ghost mut done: Seq<u8> = Seq::empty();
    let mut left: u32 = value;
    proof {
        start.lemma_put_empty();
        assert(whole =~= done + varint(left as nat));
    }
    loop
        invariant
            start == old(out)@,
            whole == varint(value as nat),
            whole == done + varint(left as nat),
            done.len() <= start.room(),
            out@ == start.put(done),
        decreases left,
    {
        let now: u8 = #[verifier::truncate]
        (left as u8);
        proof {
            lemma_group_u32(left);
            assert(done =~= whole.take(done.len() as int));
            start.lemma_put_room(done);
        }
        if left < 128 {
            let res = out.push_one(now);
            proof {
                if res is Ok {
                    start.lemma_put_put(done, seq![now]);
                }
            }
            return res;
        } else {
            let more: u8 = now | 0x80;
            if out.push_one(more).is_err() {
                return Err(());
            }
            proof {
                start.lemma_put_put(done, seq![more]);
                assert(whole =~= (done + seq![more]) + varint((left / 128) as nat));
                done = done + seq![more];
            }
        }
        left = left >> 7;
    }
}

proof fn lemma_group_u64(v: u64)
    by (bit_vector)
    ensures
        ((v as u8) | 0x80u8) == v % 128 + 128,
        v >> 7 == v / 128,
        v < 128 ==> (v as u8) == v,
{
}

/// Appends the varint of `value`. Fails where it does not fit; the stream
/// then holds as much of the varint as did fit, and is full.
pub fn varint_u64(value: u64, out: &mut SerStream) -> (res: Result<(), ()>)
    ensures
        res is Ok <==> varint(value as nat).len() <= old(out)@.room(),
        res is Ok ==> final(out)@ == old(out)@.put(varint(value as nat)),
        res is Err ==> final(out)@ == old(out)@.put(
            varint(value as nat).take(old(out)@.room() as int),
        ),
{
    let ghost start = out@;
    let ghost whole = varint(value as nat);
    let ghost mut done: Seq<u8> = Seq::empty();
    let mut left: u64 = value;
    proof {
        start.lemma_put_empty();
        assert(whole =~= done + varint(left as nat));
    }
    loop
        invariant
            start == old(out)@,
            whole == varint(value as nat),
            whole == done + varint(left as nat),
            done.len() <= start.room(),
            out@ == start.put(done),
        decreases left,
    {
        let now: u8 = #[verifier::truncate]
        (left as u8);
        proof {
            lemma_group_u64(left);
            assert(done =~= whole.take(done.len() as int));
            start.lemma_put_room(done);
        }
        if left < 128 {
            let res = out.push_one(now);
            proof {
                if res is Ok {
                    start.lemma_put_put(done, seq![now]);
                }
            }
            return res;
        } else {
            let more: u8 = now | 0x80;
            if out.push_one(more).is_err() {
                return Err(());
            }
            proof {
                start.lemma_put_put(done, seq![more]);
                assert(whole =~= (done + seq![more]) + varint((left / 128) as nat));
                done = done + seq![more];
            }
        }
        left = left >> 7;
    }
}

proof fn lemma_group_u128(v: u128)
    by (bit_vector)
    ensures
        ((v as u8) | 0x80u8) == v % 128 + 128,
        v >> 7 == v / 128,
        v < 128 ==> (v as u8) == v,
{
}

/// Appends the varint of `value`. Fails where it does not fit; the stream
/// then holds as much of the varint as did fit, and is full.
pub fn varint_u128(value: u128, out: &mut SerStream) -> (res: Result<(), ()>)
    ensures
        res is Ok <==> varint(value as nat).len() <= old(out)@.room(),
        res is Ok ==> final(out)@ == old(out)@.put(varint(value as nat)),
        res is Err ==> final(out)@ == old(out)@.put(
            varint(value as nat).take(old(out)@.room() as int),
        ),
{
    let ghost start = out@;
    let ghost whole = varint(value as nat);
    let ghost mut done: Seq<u8> = Seq::empty();
    let mut left: u128 = value;
    proof {
        start.lemma_put_empty();
        assert(whole =~= done + varint(left as nat));
    }
    loop
        invariant
            start == old(out)@,
            whole == varint(value as nat),
            whole == done + varint(left as nat),
            done.len() <= start.room(),
            out@ == start.put(done),
        decreases left,
    {
        let now: u8 = #[verifier::truncate]
        (left as u8);
        proof {
            lemma_group_u128(left);
            assert(done =~= whole.take(done.len() as int));
            start.lemma_put_room(done);
        }
        if left < 128 {
            let res = out.push_one(now);
            proof {
                if res is Ok {
                    start.lemma_put_put(done, seq![now]);
                }
            }
            return res;
        } else {
            let more: u8 = now | 0x80;
            if out.push_one(more).is_err() {
                return Err(());
            }
            proof {
                start.lemma_put_put(done, seq![more]);
                assert(whole =~= (done + seq![more]) + varint((left / 128) as nat));
                done = done + seq![more];
            }
        }
        left = left >> 7;
    }
}

/// Zig-zag of a `i16`: `(n << 1) ^ (n >> 15)`, read as unsigned.
pub fn zig_zag_i16(n: i16) -> (u: u16)
    ensures
        u == zigzag(n as int),
{
    let mixed: i16 = (n << 1) ^ (n >> 15);
    assert((n >= 0 ==> mixed as u16 == 2 * n) && (n < 0 ==> mixed as u16 == -2 * n - 1))
        by (bit_vector)
        requires
            mixed == (n << 1i16) ^ (n >> 15i16),
    ;
    #[verifier::truncate]
    (mixed as u16)
}

/// Zig-zag of a `i32`: `(n << 1) ^ (n >> 31)`, read as unsigned.
pub fn zig_zag_i32(n: i32) -> (u: u32)
    ensures
        u == zigzag(n as int),
{
    let mixed: i32 = (n << 1) ^ (n >> 31);
    assert((n >= 0 ==> mixed as u32 == 2 * n) && (n < 0 ==> mixed as u32 == -2 * n - 1))
        by (bit_vector)
        requires
            mixed == (n << 1i32) ^ (n >> 31i32),
    ;
    #[verifier::truncate]
    (mixed as u32)
}

/// Zig-zag of a `i64`: `(n << 1) ^ (n >> 63)`, read as unsigned.
pub fn zig_zag_i64(n: i64) -> (u: u64)
    ensures
        u == zigzag(n as int),
{
    let mixed: i64 = (n << 1) ^ (n >> 63);
    assert((n >= 0 ==> mixed as u64 == 2 * n) && (n < 0 ==> mixed as u64 == -2 * n - 1))
        by (bit_vector)
        requires
            mixed == (n << 1i64) ^ (n >> 63i64),
    ;
    #[verifier::truncate]
    (mixed as u64)
}

/// Zig-zag of a `i128`: `(n << 1) ^ (n >> 127)`, read as unsigned.
pub fn zig_zag_i128(n: i128) -> (u: u128)
    ensures
        u == zigzag(n as int),
{
    let mixed: i128 = (n << 1) ^ (n >> 127);
    assert((n >= 0 ==> mixed as u128 == 2 * n) && (n < 0 ==> mixed as u128 == -2 * n - 1))
        by (bit_vector)
        requires
            mixed == (n << 1i128) ^ (n >> 127i128),
    ;
    #[verifier::truncate]
    (mixed as u128)
}

} // verus!
