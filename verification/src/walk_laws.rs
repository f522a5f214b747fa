//! What holds of the walker's wire format, for every description and every
//! value: reading is local, and what was written reads back.

use crate::impls::generics::lemma_chars_round_trip;
use crate::node::{slot_filled, FieldDescriptor, Leaf, Node};
use crate::scalar::{lemma_parse_scalar_local, lemma_scalar_round_trip};
use crate::traits::{Deserialize, RoundTrip, Serialize};
use crate::value::Val;
use crate::walk::{
    admits, parse, parse_fields, parse_items, place, wire, wire_fields, wire_items,
};
use vstd::prelude::*;

verus! {

/// Reading a described value is local: it takes no more bytes than there
/// are, and what follows the bytes it takes has no say in what it reads.
pub proof fn lemma_parse_local(node: Node, s: Seq<u8>, t: Seq<u8>)
    ensures
        parse(node, s) matches Some((v, n)) ==> n <= s.len() && parse(node, s.take(n as int) + t)
            == Some((v, n)),
    decreases node, 0nat, 0nat,
{
    match node {
        Node::Leaf(Leaf::Prim(prim)) => {
            lemma_parse_scalar_local(prim, s, t);
        },
        Node::Leaf(Leaf::Text) => {
            String::lemma_parse_local(s, t);
        },
        Node::Leaf(Leaf::List(inner)) => {
            lemma_list_local(*inner, s, t);
        },
        Node::Leaf(Leaf::Array(inner, count)) => {
            lemma_parse_items_local(*inner, s, t, count as nat);
        },
        Node::Leaf(Leaf::Optional(inner)) => {
            lemma_optional_local(*inner, s, t);
        },
        Node::Leaf(Leaf::Union(variants)) => {
            lemma_union_local(variants, s, t);
        },
        Node::Record(fields) => {
            lemma_parse_fields_local(fields@, s, t, fields@.len());
        },
    }
}

/// A head read by `T` and a body of `m` bytes after it: cut off after the
/// body, the head still reads as it did, and the body still follows it.
proof fn lemma_head_local<T: Deserialize>(s: Seq<u8>, t: Seq<u8>, m: nat)
    requires
        T::parse(s) matches Some((h, k)) && k + m <= s.len(),
    ensures
        T::parse(s) matches Some((h, k)) && T::parse(s.take((k + m) as int) + t) == Some((h, k))
            && (s.take((k + m) as int) + t).skip(k as int) == s.skip(k as int).take(m as int) + t,
{
    let (h, k) = T::parse(s)->Some_0;
    let rest = s.skip(k as int);
    let cut = s.take((k + m) as int) + t;
    T::lemma_parse_local(s, rest.take(m as int) + t);
    assert(s.take(k as int) + (rest.take(m as int) + t) =~= cut);
    assert(cut.skip(k as int) =~= rest.take(m as int) + t);
}

/// Reading a sequence is local.
proof fn lemma_list_local(inner: Node, s: Seq<u8>, t: Seq<u8>)
    ensures
        ({
            let node = Node::Leaf(Leaf::List(Box::new(inner)));
            parse(node, s) matches Some((v, n)) ==> n <= s.len() && parse(
                node,
                s.take(n as int) + t,
            ) == Some((v, n))
        }),
    decreases inner, 2nat, 0nat,
{
    usize::lemma_parse_local(s, t);
    if let Some((len, k)) = usize::parse(s) {
        let rest = s.skip(k as int);
        lemma_parse_items_local(inner, rest, t, len as nat);
        if let Some((items, m)) = parse_items(inner, rest, len as nat) {
            lemma_head_local::<usize>(s, t, m);
        }
    }
}

/// Reading an optional is local.
proof fn lemma_optional_local(inner: Node, s: Seq<u8>, t: Seq<u8>)
    ensures
        ({
            let node = Node::Leaf(Leaf::Optional(Box::new(inner)));
            parse(node, s) matches Some((v, n)) ==> n <= s.len() && parse(
                node,
                s.take(n as int) + t,
            ) == Some((v, n))
        }),
    decreases inner, 2nat, 0nat,
{
    bool::lemma_parse_local(s, t);
    if let Some((present, k)) = bool::parse(s) {
        if present {
            let rest = s.skip(k as int);
            lemma_parse_local(inner, rest, t);
            if let Some((v, m)) = parse(inner, rest) {
                lemma_head_local::<bool>(s, t, m);
            }
        }
    }
}

/// Reading a tagged union is local.
proof fn lemma_union_local(variants: Vec<Node>, s: Seq<u8>, t: Seq<u8>)
    ensures
        ({
            let node = Node::Leaf(Leaf::Union(variants));
            parse(node, s) matches Some((v, n)) ==> n <= s.len() && parse(
                node,
                s.take(n as int) + t,
            ) == Some((v, n))
        }),
    decreases variants, 0nat, 0nat,
{
    u32::lemma_parse_local(s, t);
    if let Some((tag, k)) = u32::parse(s) {
        if tag < variants@.len() {
            let rest = s.skip(k as int);
            lemma_parse_local(variants@[tag as int], rest, t);
            if let Some((v, m)) = parse(variants@[tag as int], rest) {
                lemma_head_local::<u32>(s, t, m);
            }
        }
    }
}

/// Reading many described values is local, and gives as many as were
/// asked for.
pub proof fn lemma_parse_items_local(inner: Node, s: Seq<u8>, t: Seq<u8>, count: nat)
    ensures
        parse_items(inner, s, count) matches Some((items, n)) ==> n <= s.len() && items.len()
            == count && parse_items(inner, s.take(n as int) + t, count) == Some((items, n)),
    decreases inner, 1nat, count,
{
    if count == 0 {
        assert(s.take(0) + t =~= t);
    } else {
        let fewer = (count - 1) as nat;
        lemma_parse_items_local(inner, s, t, fewer);
        if let Some((items, used)) = parse_items(inner, s, fewer) {
            let here = s.skip(used as int);
            lemma_parse_local(inner, here, t);
            if let Some((v, m)) = parse(inner, here) {
                let cut = s.take((used + m) as int) + t;
                lemma_parse_items_local(inner, s, here.take(m as int) + t, fewer);
                assert(s.take(used as int) + (here.take(m as int) + t) =~= cut);
                assert(cut.skip(used as int) =~= here.take(m as int) + t);
            }
        }
    }
}

/// Reading the fields of a record is local, and gives one value for each
/// field.
pub proof fn lemma_parse_fields_local(
    fields: Seq<FieldDescriptor>,
    s: Seq<u8>,
    t: Seq<u8>,
    n: nat,
)
    ensures
        parse_fields(fields, s, n) matches Some((vals, used)) ==> used <= s.len() && vals.len()
            == n && parse_fields(fields, s.take(used as int) + t, n) == Some((vals, used)),
    decreases fields, 1nat, n,
{
    if n == 0 {
        assert(s.take(0) + t =~= t);
    } else if n <= fields.len() {
        let fewer = (n - 1) as nat;
        lemma_parse_fields_local(fields, s, t, fewer);
        if let Some((vals, used)) = parse_fields(fields, s, fewer) {
            let here = s.skip(used as int);
            lemma_parse_local(fields[n - 1].node, here, t);
            if let Some((v, m)) = parse(fields[n - 1].node, here) {
                let cut = s.take((used + m) as int) + t;
                lemma_parse_fields_local(fields, s, here.take(m as int) + t, fewer);
                assert(s.take(used as int) + (here.take(m as int) + t) =~= cut);
                assert(cut.skip(used as int) =~= here.take(m as int) + t);
            }
        }
    }
}

/// Where fewer items do not read, more do not either.
pub proof fn lemma_parse_items_fails(inner: Node, s: Seq<u8>, fewer: nat, count: nat)
    requires
        fewer <= count,
        parse_items(inner, s, fewer) is None,
    ensures
        parse_items(inner, s, count) is None,
    decreases count,
{
    if fewer < count {
        lemma_parse_items_fails(inner, s, fewer, (count - 1) as nat);
    }
}

/// Where fewer fields do not read, more do not either.
pub proof fn lemma_parse_fields_fails(fields: Seq<FieldDescriptor>, s: Seq<u8>, fewer: nat, n: nat)
    requires
        fewer <= n,
        parse_fields(fields, s, fewer) is None,
    ensures
        parse_fields(fields, s, n) is None,
    decreases n,
{
    if fewer < n {
        lemma_parse_fields_fails(fields, s, fewer, (n - 1) as nat);
    }
}

/// The wire forms of fewer items open the wire forms of more.
pub proof fn lemma_wire_items_prefix(inner: Node, items: Seq<Val>, fewer: nat, n: nat)
    requires
        fewer <= n <= items.len(),
    ensures
        wire_items(inner, items, fewer).is_prefix_of(wire_items(inner, items, n)),
    decreases n,
{
    let short = wire_items(inner, items, fewer);
    if fewer < n {
        lemma_wire_items_prefix(inner, items, fewer, (n - 1) as nat);
        let mid = wire_items(inner, items, (n - 1) as nat);
        let long = wire_items(inner, items, n);
        assert(short =~= long.subrange(0, short.len() as int)) by {
            assert(short =~= mid.subrange(0, short.len() as int));
        }
    } else {
        assert(short =~= short.subrange(0, short.len() as int));
    }
}

/// The wire forms of fewer fields open the wire forms of more.
pub proof fn lemma_wire_fields_prefix(
    fields: Seq<FieldDescriptor>,
    slots: Seq<Val>,
    fewer: nat,
    n: nat,
)
    requires
        fewer <= n <= fields.len(),
    ensures
        wire_fields(fields, slots, fewer).is_prefix_of(wire_fields(fields, slots, n)),
    decreases n,
{
    let short = wire_fields(fields, slots, fewer);
    if fewer < n {
        lemma_wire_fields_prefix(fields, slots, fewer, (n - 1) as nat);
        let mid = wire_fields(fields, slots, (n - 1) as nat);
        let long = wire_fields(fields, slots, n);
        assert(short =~= long.subrange(0, short.len() as int)) by {
            assert(short =~= mid.subrange(0, short.len() as int));
        }
    } else {
        assert(short =~= short.subrange(0, short.len() as int));
    }
}

/// A described value round-trips: under a sound description, the wire form
/// of a value of the described type, followed by anything, reads back as
/// that value, over exactly the bytes that were written.
pub proof fn lemma_round_trip(node: Node, val: Val, rest: Seq<u8>)
    requires
        node.wf(),
        admits(node, val),
    ensures
        parse(node, wire(node, val) + rest) == Some((val, wire(node, val).len())),
    decreases node, 0nat, 0nat,
{
    match node {
        Node::Leaf(Leaf::Prim(prim)) => {
            lemma_scalar_round_trip(val->Scalar_0, rest);
        },
        Node::Leaf(Leaf::Text) => {
            lemma_chars_round_trip(val->Text_0, rest);
        },
        Node::Leaf(Leaf::List(inner)) => {
            lemma_list_round_trip(*inner, val->List_0, rest);
        },
        Node::Leaf(Leaf::Array(inner, count)) => {
            let items = val->Array_0;
            lemma_items_round_trip(*inner, items, items.len(), rest);
            assert(items.take(items.len() as int) =~= items);
        },
        Node::Leaf(Leaf::Optional(inner)) => {
            if let Some(v) = val->Optional_0 {
                let whole = wire(node, val) + rest;
                lemma_round_trip(*inner, *v, rest);
                assert(whole.skip(1) =~= wire(*inner, *v) + rest);
            }
        },
        Node::Leaf(Leaf::Union(variants)) => {
            lemma_union_round_trip(variants, val->Union_0, val->Union_1, rest);
        },
        Node::Record(fields) => {
            lemma_record_round_trip(fields, val->Record_0, rest);
        },
    }
}

/// A sequence round-trips.
proof fn lemma_list_round_trip(inner: Node, items: Seq<Val>, rest: Seq<u8>)
    requires
        inner.wf(),
        items.len() <= usize::MAX,
        forall|i: int| 0 <= i < items.len() ==> admits(inner, #[trigger] items[i]),
    ensures
        ({
            let node = Node::Leaf(Leaf::List(Box::new(inner)));
            parse(node, wire(node, Val::List(items)) + rest) == Some(
                (Val::List(items), wire(node, Val::List(items)).len()),
            )
        }),
    decreases inner, 2nat, 0nat,
{
    let node = Node::Leaf(Leaf::List(Box::new(inner)));
    let whole = wire(node, Val::List(items)) + rest;
    let len: usize = items.len() as usize;
    let body = wire_items(inner, items, items.len());
    len.lemma_round_trip(body + rest);
    assert(len.wire() + (body + rest) =~= whole);
    assert(whole.skip(len.wire().len() as int) =~= body + rest);
    lemma_items_round_trip(inner, items, items.len(), rest);
    assert(items.take(items.len() as int) =~= items);
}

/// A tagged union round-trips.
proof fn lemma_union_round_trip(variants: Vec<Node>, tag: u32, slots: Seq<Val>, rest: Seq<u8>)
    requires
        tag < variants@.len(),
        variants@[tag as int] is Record,
        variants@[tag as int].wf(),
        admits(variants@[tag as int], Val::Record(slots)),
    ensures
        ({
            let node = Node::Leaf(Leaf::Union(variants));
            parse(node, wire(node, Val::Union(tag, slots)) + rest) == Some(
                (Val::Union(tag, slots), wire(node, Val::Union(tag, slots)).len()),
            )
        }),
    decreases variants, 0nat, 0nat,
{
    let node = Node::Leaf(Leaf::Union(variants));
    let whole = wire(node, Val::Union(tag, slots)) + rest;
    let payload = wire(variants@[tag as int], Val::Record(slots));
    tag.lemma_round_trip(payload + rest);
    assert(tag.wire() + (payload + rest) =~= whole);
    assert(whole.skip(tag.wire().len() as int) =~= payload + rest);
    lemma_round_trip(variants@[tag as int], Val::Record(slots), rest);
}

/// A record round-trips: each slot comes back holding what it held.
proof fn lemma_record_round_trip(fields: Vec<FieldDescriptor>, slots: Seq<Val>, rest: Seq<u8>)
    requires
        Node::Record(fields).wf(),
        admits(Node::Record(fields), Val::Record(slots)),
    ensures
        parse(Node::Record(fields), wire(Node::Record(fields), Val::Record(slots)) + rest) == Some(
            (Val::Record(slots), wire(Node::Record(fields), Val::Record(slots)).len()),
        ),
    decreases fields, 2nat, 0nat,
{
    lemma_fields_round_trip(fields@, slots, fields@.len(), rest);
    let vals = Seq::new(fields@.len(), |i: int| slots[fields@[i].offset as int]);
    assert(vals.take(fields@.len() as int) =~= vals);
    assert(place(fields@, vals) =~= slots) by {
        assert forall|slot: int| 0 <= slot < slots.len() implies place(fields@, vals)[slot]
            == slots[slot] by {
            assert(slot_filled(fields@, slot));
        }
    }
}

/// Many described values round-trip, in order.
pub proof fn lemma_items_round_trip(inner: Node, items: Seq<Val>, n: nat, rest: Seq<u8>)
    requires
        inner.wf(),
        n <= items.len(),
        forall|i: int| 0 <= i < n ==> admits(inner, #[trigger] items[i]),
    ensures
        parse_items(inner, wire_items(inner, items, n) + rest, n) == Some(
            (items.take(n as int), wire_items(inner, items, n).len()),
        ),
    decreases inner, 1nat, n,
{
    if n == 0 {
        assert(items.take(0) =~= Seq::<Val>::empty());
    } else {
        let fewer = (n - 1) as nat;
        let done = wire_items(inner, items, fewer);
        let this = wire(inner, items[n - 1]);
        let whole = wire_items(inner, items, n) + rest;
        lemma_items_round_trip(inner, items, fewer, this + rest);
        assert(done + (this + rest) =~= whole);
        assert(whole.skip(done.len() as int) =~= this + rest);
        lemma_round_trip(inner, items[n - 1], rest);
        assert(items.take(fewer as int).push(items[n - 1]) =~= items.take(n as int));
    }
}

/// The fields of a record round-trip, in the order of the list: each reads
/// back as what its slot held.
pub proof fn lemma_fields_round_trip(
    fields: Seq<FieldDescriptor>,
    slots: Seq<Val>,
    n: nat,
    rest: Seq<u8>,
)
    requires
        n <= fields.len(),
        forall|i: int|
            0 <= i < n ==> (#[trigger] fields[i]).node.wf() && fields[i].offset < slots.len()
                && admits(fields[i].node, slots[fields[i].offset as int]),
    ensures
        parse_fields(fields, wire_fields(fields, slots, n) + rest, n) == Some(
            (
                Seq::new(n, |i: int| slots[fields[i].offset as int]),
                wire_fields(fields, slots, n).len(),
            ),
        ),
    decreases fields, 1nat, n,
{
    if n == 0 {
        assert(Seq::new(0, |i: int| slots[fields[i].offset as int]) =~= Seq::<Val>::empty());
    } else {
        let fewer = (n - 1) as nat;
        let last = fields[n - 1];
        let done = wire_fields(fields, slots, fewer);
        let this = wire(last.node, slots[last.offset as int]);
        let whole = wire_fields(fields, slots, n) + rest;
        lemma_fields_round_trip(fields, slots, fewer, this + rest);
        assert(done + (this + rest) =~= whole);
        assert(whole.skip(done.len() as int) =~= this + rest);
        lemma_round_trip(last.node, slots[last.offset as int], rest);
        assert(Seq::new(fewer, |i: int| slots[fields[i].offset as int]).push(
            slots[last.offset as int],
        ) =~= Seq::new(n, |i: int| slots[fields[i].offset as int]));
    }
}

/// Cut short, the wire form of a described value does not read: no strict
/// prefix of what was written is a well-formed value of the type.
pub proof fn lemma_truncated_fails(node: Node, val: Val, k: int)
    requires
        node.wf(),
        admits(node, val),
        0 <= k < wire(node, val).len(),
    ensures
        parse(node, wire(node, val).take(k)) is None,
{
    let whole = wire(node, val);
    let cut = whole.take(k);
    if let Some((v, n)) = parse(node, cut) {
        lemma_parse_local(node, cut, whole.skip(n as int));
        assert(cut.take(n as int) + whole.skip(n as int) =~= whole);
        lemma_round_trip(node, val, Seq::empty());
        assert(whole + Seq::<u8>::empty() =~= whole);
    }
}

/// Decoding what was just encoded ends with nothing left over: the bytes
/// written are exactly the bytes read.
pub proof fn lemma_byte_count(node: Node, val: Val)
    requires
        node.wf(),
        admits(node, val),
    ensures
        parse(node, wire(node, val)) == Some((val, wire(node, val).len())),
        wire(node, val).skip(wire(node, val).len() as int) == Seq::<u8>::empty(),
{
    lemma_round_trip(node, val, Seq::empty());
    assert(wire(node, val) + Seq::<u8>::empty() =~= wire(node, val));
    assert(wire(node, val).skip(wire(node, val).len() as int) =~= Seq::<u8>::empty());
}

/// A tag that names no declared variant does not read.
pub proof fn lemma_unknown_tag_fails(variants: Vec<Node>, s: Seq<u8>)
    requires
        u32::parse(s) matches Some((tag, _)) && tag >= variants@.len(),
    ensures
        parse(Node::Leaf(Leaf::Union(variants)), s) is None,
{
}

} // verus!
