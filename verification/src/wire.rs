//! The wire format of the integers, as mathematics: varints, their parser,
//! the zig-zag mapping, and what holds between them.

use vstd::arithmetic::power2::{
    lemma2_to64, lemma_pow2_adds, lemma_pow2_pos, lemma_pow2_strictly_increases, pow2,
};
use vstd::prelude::*;

verus! {

/// The varint of `v`: groups of seven bits, least significant group first,
/// every group but the last with the continuation bit `0x80` set.
pub open spec fn varint(v: nat) -> Seq<u8>
    decreases v,
{
    if v < 128 {
        seq![v as u8]
    } else {
        seq![(v % 128 + 128) as u8] + varint(v / 128)
    }
}

/// The most bytes a varint of a `bits`-wide integer may take.
pub open spec fn max_bytes(bits: nat) -> nat {
    (bits + 6) / 7
}

/// The largest value that the last permitted byte of a `bits`-wide varint
/// may hold: the bits of the byte beyond it would not fit the integer.
pub open spec fn last_byte_max(bits: nat) -> nat {
    (pow2(bits % 7) - 1) as nat
}

/// Reads one varint off the front of `s`, of at most `limit` bytes, the last
/// permitted byte holding at most `last_max`. Gives the value and the number
/// of bytes read; `None` where the bytes end before the varint does, where
/// `limit` bytes go by with the continuation bit set, or where the last
/// permitted byte holds too much.
pub open spec fn parse_groups(s: Seq<u8>, limit: nat, last_max: nat) -> Option<(nat, nat)>
    decreases limit,
{
    if limit == 0 || s.len() == 0 {
        None
    } else if s[0] < 128 {
        if limit == 1 && s[0] > last_max {
            None
        } else {
            Some((s[0] as nat, 1nat))
        }
    } else {
        match parse_groups(s.skip(1), (limit - 1) as nat, last_max) {
            Some((v, n)) => Some(((s[0] - 128) as nat + 128 * v, n + 1)),
            None => None,
        }
    }
}

/// Reads the varint of a `bits`-wide unsigned integer off the front of `s`.
pub open spec fn take_varint(s: Seq<u8>, bits: nat) -> Option<(nat, nat)> {
    parse_groups(s, max_bytes(bits), last_byte_max(bits))
}

/// How many bytes a failed read of a `bits`-wide varint has passed over: all
/// that were there, up to the most such a varint may take.
pub open spec fn failed_span(s: Seq<u8>, bits: nat) -> nat {
    if s.len() < max_bytes(bits) {
        s.len()
    } else {
        max_bytes(bits)
    }
}

/// Zig-zag: the signed integers onto the naturals, small magnitudes first.
pub open spec fn zigzag(n: int) -> nat {
    if n >= 0 {
        (2 * n) as nat
    } else {
        (-2 * n - 1) as nat
    }
}

/// The inverse of [`zigzag`].
pub open spec fn unzigzag(u: nat) -> int {
    if u % 2 == 0 {
        (u / 2) as int
    } else {
        -((u + 1) / 2)
    }
}

/// A varint has at least one byte, and exactly as many as its value needs:
/// the value fits in seven bits per byte, and in no fewer bytes.
pub proof fn lemma_varint_len(v: nat)
    ensures
        varint(v).len() >= 1,
        v < pow2(7 * varint(v).len()),
        varint(v).len() > 1 ==> v >= pow2((7 * (varint(v).len() - 1)) as nat),
        v < 128 <==> varint(v).len() == 1,
    decreases v,
{
    lemma2_to64();
    if v >= 128 {
        let w = v / 128;
        let n = varint(w).len();
        lemma_varint_len(w);
        lemma_pow2_adds(7, 7 * n);
        assert(v < 128 * pow2(7 * n)) by (nonlinear_arith)
            requires
                w == v / 128,
                w < pow2(7 * n),
        ;
        if n > 1 {
            lemma_pow2_adds(7, (7 * (n - 1)) as nat);
            assert(v >= 128 * pow2((7 * (n - 1)) as nat)) by (nonlinear_arith)
                requires
                    w == v / 128,
                    w >= pow2((7 * (n - 1)) as nat),
            ;
        }
    }
}

/// Every byte of a varint but the last has the continuation bit set; the
/// last has it clear.
pub proof fn lemma_varint_bytes(v: nat)
    ensures
        forall|i: int| 0 <= i < varint(v).len() - 1 ==> #[trigger] varint(v)[i] >= 128,
        varint(v).last() < 128,
    decreases v,
{
    if v >= 128 {
        lemma_varint_bytes(v / 128);
        lemma_varint_len(v / 128);
        let s = varint(v);
        assert forall|i: int| 0 <= i < s.len() - 1 implies #[trigger] s[i] >= 128 by {
            if i > 0 {
                assert(s[i] == varint(v / 128)[i - 1]);
            }
        }
        assert(s.last() == varint(v / 128).last());
    }
}

/// Reading back what was written: a varint followed by anything parses to
/// its value and to its own length, whenever the value fits the limits.
pub proof fn lemma_parse_groups_varint(v: nat, limit: nat, last_max: nat, rest: Seq<u8>)
    requires
        limit >= 1,
        last_max < 128,
        v < pow2((7 * (limit - 1)) as nat) * (last_max + 1),
    ensures
        parse_groups(varint(v) + rest, limit, last_max) == Some((v, varint(v).len())),
    decreases v,
{
    lemma2_to64();
    let s = varint(v) + rest;
    if limit == 1 {
        let unit = pow2((7 * (limit - 1)) as nat);
        assert(unit == 1);
        assert(unit * (last_max + 1) == last_max + 1) by (nonlinear_arith)
            requires
                unit == 1,
        ;
    }
    if v < 128 {
        assert(s[0] == v as u8);
    } else {
        let w = v / 128;
        let e = (7 * (limit - 2)) as nat;
        lemma_pow2_adds(7, e);
        assert(w < pow2(e) * (last_max + 1)) by (nonlinear_arith)
            requires
                w == v / 128,
                v < (128 * pow2(e)) * (last_max + 1),
        ;
        lemma_parse_groups_varint(w, (limit - 1) as nat, last_max, rest);
        assert(s[0] == (v % 128 + 128) as u8);
        assert(s.skip(1) =~= varint(w) + rest);
    }
}

/// A `bits`-wide varint round-trips: for every width that is no multiple of
/// seven, the varint of a value below `2^bits`, followed by anything, reads
/// back as that value, over exactly the bytes that were written.
pub proof fn lemma_take_varint_of_varint(v: nat, bits: nat, rest: Seq<u8>)
    requires
        bits % 7 != 0,
        v < pow2(bits),
    ensures
        take_varint(varint(v) + rest, bits) == Some((v, varint(v).len())),
{
    let limit = max_bytes(bits);
    let last_max = last_byte_max(bits);
    lemma2_to64();
    lemma_pow2_pos(bits % 7);
    assert(limit == bits / 7 + 1);
    assert(bits == 7 * (bits / 7) + bits % 7);
    lemma_pow2_adds(7 * (bits / 7), bits % 7);
    assert(last_max < 128) by {
        assert(bits % 7 <= 6);
        if bits % 7 == 1 {
        } else if bits % 7 == 2 {
        } else if bits % 7 == 3 {
        } else if bits % 7 == 4 {
        } else if bits % 7 == 5 {
        } else {
        }
    }
    lemma_parse_groups_varint(v, limit, last_max, rest);
}

/// What a successful read gives: it took at least one byte, no more than
/// were there or than the limit allows, and no fewer than the varint of the
/// value it read. The encoder's output is the shortest the decoder accepts.
pub proof fn lemma_parse_groups_minimal(s: Seq<u8>, limit: nat, last_max: nat)
    ensures
        parse_groups(s, limit, last_max) matches Some((v, n)) ==> {
            &&& 1 <= n <= limit
            &&& n <= s.len()
            &&& varint(v).len() <= n
        },
    decreases limit,
{
    if limit != 0 && s.len() != 0 && s[0] >= 128 {
        lemma_parse_groups_minimal(s.skip(1), (limit - 1) as nat, last_max);
        if let Some((w, m)) = parse_groups(s.skip(1), (limit - 1) as nat, last_max) {
            let v = (s[0] - 128) as nat + 128 * w;
            lemma_varint_len(v);
            if v >= 128 {
                assert(v / 128 == w);
            }
        }
    }
}

/// A read succeeds on exactly a terminated run: its bytes before the last
/// have the continuation bit set, its last byte has it clear.
pub proof fn lemma_parse_groups_shape(s: Seq<u8>, limit: nat, last_max: nat)
    ensures
        parse_groups(s, limit, last_max) matches Some((v, n)) ==> {
            &&& forall|i: int| 0 <= i < n - 1 ==> #[trigger] s[i] >= 128
            &&& s[n - 1] < 128
            &&& (n == limit ==> s[n - 1] <= last_max)
        },
    decreases limit,
{
    if limit != 0 && s.len() != 0 && s[0] >= 128 {
        lemma_parse_groups_shape(s.skip(1), (limit - 1) as nat, last_max);
        lemma_parse_groups_minimal(s.skip(1), (limit - 1) as nat, last_max);
        if let Some((w, m)) = parse_groups(s.skip(1), (limit - 1) as nat, last_max) {
            assert forall|i: int| 0 <= i < m implies #[trigger] s[i] >= 128 by {
                if i > 0 {
                    assert(s[i] == s.skip(1)[i - 1]);
                }
            }
            assert(s[m as int] == s.skip(1)[m - 1]);
        }
    }
}

/// A read looks at no byte beyond those it takes.
pub proof fn lemma_parse_groups_prefix(s: Seq<u8>, t: Seq<u8>, limit: nat, last_max: nat)
    ensures
        parse_groups(s, limit, last_max) matches Some((v, n)) ==> parse_groups(
            s.take(n as int) + t,
            limit,
            last_max,
        ) == Some((v, n)),
    decreases limit,
{
    lemma_parse_groups_minimal(s, limit, last_max);
    if let Some((v, n)) = parse_groups(s, limit, last_max) {
        let u = s.take(n as int) + t;
        assert(u[0] == s[0]);
        if s[0] >= 128 {
            lemma_parse_groups_prefix(s.skip(1), t, (limit - 1) as nat, last_max);
            assert(u.skip(1) =~= s.skip(1).take(n - 1) + t);
        }
    }
}

/// Cut short, a varint does not parse: no strict prefix of it is accepted,
/// under any limit.
pub proof fn lemma_parse_groups_truncated(v: nat, k: int, limit: nat, last_max: nat)
    requires
        0 <= k < varint(v).len(),
    ensures
        parse_groups(varint(v).take(k), limit, last_max) is None,
    decreases v,
{
    let s = varint(v).take(k);
    if v >= 128 && k > 0 && limit > 0 {
        lemma_parse_groups_truncated(v / 128, k - 1, (limit - 1) as nat, last_max);
        assert(s.skip(1) =~= varint(v / 128).take(k - 1));
        assert(s[0] >= 128);
    }
}

/// A run of `limit` bytes whose last byte ends it, but holds more than the
/// last permitted byte may, is rejected.
pub proof fn lemma_parse_groups_overflow(s: Seq<u8>, limit: nat, last_max: nat)
    requires
        1 <= limit <= s.len(),
        forall|i: int| 0 <= i < limit - 1 ==> #[trigger] s[i] >= 128,
        s[limit - 1] > last_max,
    ensures
        parse_groups(s, limit, last_max) is None,
    decreases limit,
{
    if limit > 1 {
        assert(s[0] >= 128);
        assert forall|i: int| 0 <= i < limit - 2 implies #[trigger] s.skip(1)[i] >= 128 by {
            assert(s.skip(1)[i] == s[i + 1]);
        }
        assert(s.skip(1)[limit - 2] == s[limit - 1]);
        lemma_parse_groups_overflow(s.skip(1), (limit - 1) as nat, last_max);
    } else {
        assert(parse_groups(s.skip(1), 0, last_max) is None);
    }
}

/// The value that the low seven bits of the first `n` bytes of `s` spell,
/// least significant group first.
pub open spec fn prefix_value(s: Seq<u8>, n: nat) -> nat
    decreases n,
{
    if n == 0 {
        0
    } else {
        prefix_value(s, (n - 1) as nat) + (s[n - 1] % 128) as nat * pow2((7 * (n - 1)) as nat)
    }
}

/// What a read that has `acc` from `i` bytes behind it makes of the outcome
/// `r` of reading on from there.
pub open spec fn resume(acc: nat, i: nat, r: Option<(nat, nat)>) -> Option<(nat, nat)> {
    match r {
        Some((v, n)) => Some((acc + pow2(7 * i) * v, n + i)),
        None => None,
    }
}

/// The first `n` groups spell a value below `2^(7n)`.
pub proof fn lemma_prefix_value_bound(s: Seq<u8>, n: nat)
    ensures
        prefix_value(s, n) < pow2(7 * n),
    decreases n,
{
    lemma2_to64();
    if n > 0 {
        let e = (7 * (n - 1)) as nat;
        lemma_prefix_value_bound(s, (n - 1) as nat);
        lemma_pow2_adds(7, e);
        let g = (s[n - 1] % 128) as nat;
        assert(prefix_value(s, (n - 1) as nat) + g * pow2(e) < 128 * pow2(e)) by (nonlinear_arith)
            requires
                prefix_value(s, (n - 1) as nat) < pow2(e),
                g < 128,
        ;
    }
}

/// Past `i` continuation bytes, a read is what reading on from there gives,
/// with the value of those `i` groups below it.
pub proof fn lemma_parse_groups_resume(s: Seq<u8>, i: nat, limit: nat, last_max: nat)
    requires
        i <= limit,
        i <= s.len(),
        forall|k: int| 0 <= k < i ==> #[trigger] s[k] >= 128,
    ensures
        parse_groups(s, limit, last_max) == resume(
            prefix_value(s, i),
            i,
            parse_groups(s.skip(i as int), (limit - i) as nat, last_max),
        ),
    decreases i,
{
    lemma2_to64();
    if i == 0 {
        assert(s.skip(0) =~= s);
        match parse_groups(s, limit, last_max) {
            Some((v, n)) => {
                assert(pow2(0) * v == v) by (nonlinear_arith)
                    requires
                        pow2(0) == 1,
                ;
            },
            None => {},
        }
    } else {
        let j = (i - 1) as nat;
        lemma_parse_groups_resume(s, j, limit, last_max);
        let here = s.skip(j as int);
        assert(here[0] == s[j as int]);
        assert(here.skip(1) =~= s.skip(i as int));
        let e = 7 * j;
        lemma_pow2_adds(e, 7);
        match parse_groups(s.skip(i as int), (limit - i) as nat, last_max) {
            Some((v, n)) => {
                let c = (s[j as int] - 128) as nat;
                assert(s[j as int] % 128 == c);
                assert(prefix_value(s, j) + pow2(e) * (c + 128 * v) == prefix_value(s, j) + c * pow2(
                    e,
                ) + (pow2(e) * 128) * v) by (nonlinear_arith);
            },
            None => {},
        }
    }
}

/// One more group on top of `i` groups still fits a `bits`-wide integer,
/// provided the last permitted byte holds no more than it may.
pub proof fn lemma_group_fits(acc: nat, carry: nat, i: nat, bits: nat)
    requires
        bits % 7 != 0,
        i < max_bytes(bits),
        acc < pow2(7 * i),
        carry < 128,
        i + 1 == max_bytes(bits) ==> carry <= last_byte_max(bits),
    ensures
        acc + carry * pow2(7 * i) < pow2(7 * (i + 1)),
        acc + carry * pow2(7 * i) < pow2(bits),
{
    lemma2_to64();
    let unit = pow2(7 * i);
    lemma_pow2_adds(7 * i, 7);
    lemma_pow2_pos(bits % 7);
    assert(bits == 7 * (bits / 7) + bits % 7);
    assert(max_bytes(bits) == bits / 7 + 1);
    assert(acc + carry * unit < unit * 128) by (nonlinear_arith)
        requires
            acc < unit,
            carry < 128,
    ;
    if i + 1 == max_bytes(bits) {
        lemma_pow2_adds(7 * i, bits % 7);
        let top = pow2(bits % 7);
        assert(acc + carry * unit < unit * top) by (nonlinear_arith)
            requires
                acc < unit,
                carry + 1 <= top,
        ;
    } else {
        if 7 * (i + 1) < bits {
            lemma_pow2_strictly_increases(7 * (i + 1), bits);
        }
    }
}

/// A read of a `bits`-wide varint gives a value that fits `bits` bits.
pub proof fn lemma_take_varint_bound(s: Seq<u8>, bits: nat)
    requires
        bits % 7 != 0,
    ensures
        take_varint(s, bits) matches Some((v, n)) ==> v < pow2(bits) && 1 <= n <= max_bytes(bits)
            && n <= s.len(),
{
    let limit = max_bytes(bits);
    let last_max = last_byte_max(bits);
    lemma_parse_groups_minimal(s, limit, last_max);
    lemma_parse_groups_shape(s, limit, last_max);
    if let Some((v, n)) = parse_groups(s, limit, last_max) {
        let i = (n - 1) as nat;
        lemma_parse_groups_resume(s, i, limit, last_max);
        lemma_prefix_value_bound(s, i);
        let here = s.skip(i as int);
        assert(here[0] == s[i as int]);
        assert(parse_groups(here, (limit - i) as nat, last_max) == Some((s[i as int] as nat, 1nat)));
        lemma_group_fits(prefix_value(s, i), s[i as int] as nat, i, bits);
        assert(pow2(7 * i) * (s[i as int] as nat) == (s[i as int] as nat) * pow2(7 * i))
            by (nonlinear_arith);
    }
}

/// A `bits`-wide varint whose last permitted byte has overflow bits set
/// does not read.
pub proof fn lemma_take_varint_overflow(s: Seq<u8>, bits: nat)
    requires
        1 <= max_bytes(bits) <= s.len(),
        forall|i: int| 0 <= i < max_bytes(bits) - 1 ==> #[trigger] s[i] >= 128,
        s[max_bytes(bits) - 1] > last_byte_max(bits),
    ensures
        take_varint(s, bits) is None,
{
    lemma_parse_groups_overflow(s, max_bytes(bits), last_byte_max(bits));
}

/// The encoder emits the fewest bytes: no spelling of a value that the
/// decoder of a `bits`-wide varint accepts is shorter than the varint of
/// the value.
pub proof fn lemma_varint_shortest(s: Seq<u8>, bits: nat)
    ensures
        take_varint(s, bits) matches Some((v, n)) ==> varint(v).len() <= n,
{
    lemma_parse_groups_minimal(s, max_bytes(bits), last_byte_max(bits));
}

/// Zig-zag and its inverse undo each other.
pub proof fn lemma_zigzag_inverse(n: int, u: nat)
    ensures
        unzigzag(zigzag(n)) == n,
        zigzag(unzigzag(u)) == u,
{
}

/// Zig-zag takes the `bits`-wide signed integers onto the `bits`-wide
/// unsigned ones, and its inverse takes them back.
pub proof fn lemma_zigzag_range(n: int, u: nat, bits: nat)
    requires
        bits >= 1,
    ensures
        -pow2((bits - 1) as nat) <= n < pow2((bits - 1) as nat) <==> zigzag(n) < pow2(bits),
        u < pow2(bits) <==> -pow2((bits - 1) as nat) <= unzigzag(u) < pow2((bits - 1) as nat),
{
    lemma2_to64();
    lemma_pow2_adds(1, (bits - 1) as nat);
}

} // verus!
