//! The walker: the engine that interprets a description against a value and
//! a stream.

use crate::impls::generics::lemma_suffix_of_skip;
use crate::node::{covers_slots, field_at, slot_filled, FieldDescriptor, Leaf, Node};
use crate::scalar::{deserialize_scalar, parse_scalar, Prim, Scalar};
use crate::stream::{DeserStream, SerStream};
use crate::traits::{Deserialize, Serialize};
use crate::value::{val_of, vals_of, Val, Value};
use crate::walk_laws::{
    lemma_parse_fields_fails, lemma_parse_fields_local, lemma_parse_items_fails,
    lemma_parse_items_local, lemma_parse_local, lemma_wire_fields_prefix, lemma_wire_items_prefix,
};
use crate::wire::varint;
use vstd::prelude::*;
use vstd::utf8::encode_utf8;

verus! {

/// `val` is a value of the type that `node` describes.
pub open spec fn admits(node: Node, val: Val) -> bool
    decreases node,
{
    match node {
        Node::Leaf(Leaf::Prim(prim)) => val matches Val::Scalar(x) && x.prim() == prim,
        Node::Leaf(Leaf::Text) => val matches Val::Text(chars) && encode_utf8(chars).len()
            <= usize::MAX,
        Node::Leaf(Leaf::List(inner)) => val matches Val::List(items) && items.len() <= usize::MAX
            && forall|i: int| 0 <= i < items.len() ==> admits(*inner, #[trigger] items[i]),
        Node::Leaf(Leaf::Array(inner, count)) => val matches Val::Array(items) && items.len()
            == count && forall|i: int| 0 <= i < items.len() ==> admits(*inner, #[trigger] items[i]),
        Node::Leaf(Leaf::Optional(inner)) => val matches Val::Optional(payload) && (
        payload matches Some(v) ==> admits(*inner, *v)),
        Node::Leaf(Leaf::Union(variants)) => val matches Val::Union(tag, slots) && tag
            < variants@.len() && admits(variants@[tag as int], Val::Record(slots)),
        Node::Record(fields) => val matches Val::Record(slots) && slots.len() == fields@.len()
            && forall|i: int|
            0 <= i < fields@.len() ==> (#[trigger] fields@[i]).offset < slots.len() && admits(
                fields@[i].node,
                slots[fields@[i].offset as int],
            ),
    }
}

/// The wire form of `val`, a value of the type that `node` describes.
pub open spec fn wire(node: Node, val: Val) -> Seq<u8>
    decreases node, 0nat,
{
    match node {
        Node::Leaf(Leaf::Prim(_)) => val->Scalar_0.wire(),
        Node::Leaf(Leaf::Text) => varint(encode_utf8(val->Text_0).len()) + encode_utf8(
            val->Text_0,
        ),
        Node::Leaf(Leaf::List(inner)) => varint(val->List_0.len()) + wire_items(
            *inner,
            val->List_0,
            val->List_0.len(),
        ),
        Node::Leaf(Leaf::Array(inner, _)) => wire_items(*inner, val->Array_0, val->Array_0.len()),
        Node::Leaf(Leaf::Optional(inner)) => match val->Optional_0 {
            Some(v) => seq![1u8] + wire(*inner, *v),
            None => seq![0u8],
        },
        Node::Leaf(Leaf::Union(variants)) => {
            let tag = val->Union_0;
            if tag < variants@.len() {
                varint(tag as nat) + wire(variants@[tag as int], Val::Record(val->Union_1))
            } else {
                varint(tag as nat)
            }
        },
        Node::Record(fields) => wire_fields(fields@, val->Record_0, fields@.len()),
    }
}

/// The wire forms of the first `n` of `items`, each of the type that
/// `inner` describes, one after the other.
pub open spec fn wire_items(inner: Node, items: Seq<Val>, n: nat) -> Seq<u8>
    decreases inner, n,
{
    if n == 0 || n > items.len() {
        Seq::empty()
    } else {
        wire_items(inner, items, (n - 1) as nat) + wire(inner, items[n - 1])
    }
}

/// The wire forms of the first `n` of `fields`, each taken from its slot of
/// `slots`, one after the other.
pub open spec fn wire_fields(fields: Seq<FieldDescriptor>, slots: Seq<Val>, n: nat) -> Seq<u8>
    decreases fields, n,
{
    if n == 0 || n > fields.len() {
        Seq::empty()
    } else {
        wire_fields(fields, slots, (n - 1) as nat) + wire(
            fields[n - 1].node,
            slots[fields[n - 1].offset as int],
        )
    }
}

/// What the front of `s` reads as, read as a value of the type that `node`
/// describes: the value and the number of bytes it takes; `None` where `s`
/// does not start with a well-formed value of that type.
pub open spec fn parse(node: Node, s: Seq<u8>) -> Option<(Val, nat)>
    decreases node, 0nat,
{
    match node {
        Node::Leaf(Leaf::Prim(prim)) => match parse_scalar(prim, s) {
            Some((x, n)) => Some((Val::Scalar(x), n)),
            None => None,
        },
        Node::Leaf(Leaf::Text) => match String::parse(s) {
            Some((chars, n)) => Some((Val::Text(chars), n)),
            None => None,
        },
        Node::Leaf(Leaf::List(inner)) => match usize::parse(s) {
            Some((len, k)) => match parse_items(*inner, s.skip(k as int), len as nat) {
                Some((items, m)) => Some((Val::List(items), k + m)),
                None => None,
            },
            None => None,
        },
        Node::Leaf(Leaf::Array(inner, count)) => match parse_items(*inner, s, count as nat) {
            Some((items, n)) => Some((Val::Array(items), n)),
            None => None,
        },
        Node::Leaf(Leaf::Optional(inner)) => match bool::parse(s) {
            Some((present, k)) => if present {
                match parse(*inner, s.skip(k as int)) {
                    Some((v, m)) => Some((Val::Optional(Some(Box::new(v))), k + m)),
                    None => None,
                }
            } else {
                Some((Val::Optional(None), k))
            },
            None => None,
        },
        Node::Leaf(Leaf::Union(variants)) => match u32::parse(s) {
            Some((tag, k)) => if tag < variants@.len() {
                match parse(variants@[tag as int], s.skip(k as int)) {
                    Some((Val::Record(slots), m)) => Some((Val::Union(tag, slots), k + m)),
                    _ => None,
                }
            } else {
                None
            },
            None => None,
        },
        Node::Record(fields) => match parse_fields(fields@, s, fields@.len()) {
            Some((vals, n)) => Some((Val::Record(place(fields@, vals)), n)),
            None => None,
        },
    }
}

/// Reads `count` values of the type that `inner` describes off the front of
/// `s`, one after the other.
pub open spec fn parse_items(inner: Node, s: Seq<u8>, count: nat) -> Option<(Seq<Val>, nat)>
    decreases inner, count,
{
    if count == 0 {
        Some((Seq::empty(), 0nat))
    } else {
        match parse_items(inner, s, (count - 1) as nat) {
            Some((items, used)) => match parse(inner, s.skip(used as int)) {
                Some((v, m)) => Some((items.push(v), used + m)),
                None => None,
            },
            None => None,
        }
    }
}

/// Reads the first `n` of `fields` off the front of `s`, one after the
/// other. Gives their values in the order of the list.
pub open spec fn parse_fields(fields: Seq<FieldDescriptor>, s: Seq<u8>, n: nat) -> Option<
    (Seq<Val>, nat),
>
    decreases fields, n,
{
    if n == 0 {
        Some((Seq::empty(), 0nat))
    } else if n > fields.len() {
        None
    } else {
        match parse_fields(fields, s, (n - 1) as nat) {
            Some((vals, used)) => match parse(fields[n - 1].node, s.skip(used as int)) {
                Some((v, m)) => Some((vals.push(v), used + m)),
                None => None,
            },
            None => None,
        }
    }
}

/// The slots of a record whose fields, in the order of the list, hold
/// `vals`: each slot holds the value of the field that lies in it.
pub open spec fn place(fields: Seq<FieldDescriptor>, vals: Seq<Val>) -> Seq<Val> {
    Seq::new(fields.len(), |slot: int| vals[field_at(fields, slot)])
}

/// Encodes `value` as the type that `node` describes: a leaf by its codec,
/// a record field by field in list order, each field taken from its slot.
/// Succeeds exactly where the wire form fits; where it does not, only some
/// strict prefix of it was written.
pub fn encode_walk(stream: &mut SerStream, value: &Value, node: &Node) -> (res: Result<(), ()>)
    requires
        admits(*node, val_of(*value)),
    ensures
        res is Ok <==> wire(*node, val_of(*value)).len() <= old(stream)@.room(),
        res is Ok ==> final(stream)@ == old(stream)@.put(wire(*node, val_of(*value))),
        res is Err ==> old(stream)@.cut_short(final(stream)@, wire(*node, val_of(*value))),
    decreases node, 0nat,
{
    match node {
        Node::Leaf(Leaf::Prim(_)) => match value {
            Value::Scalar(x) => x.serialize(stream),
            _ => {
                proof {
                    assert(false);
                }
                Err(())
            },
        },
        Node::Leaf(Leaf::Text) => match value {
            Value::Text(text) => text.serialize(stream),
            _ => {
                proof {
                    assert(false);
                }
                Err(())
            },
        },
        Node::Leaf(Leaf::List(inner)) => match value {
            Value::List(items) => encode_list(stream, items, inner),
            _ => {
                proof {
                    assert(false);
                }
                Err(())
            },
        },
        Node::Leaf(Leaf::Array(inner, _)) => match value {
            Value::Array(items) => encode_items(stream, items, inner),
            _ => {
                proof {
                    assert(false);
                }
                Err(())
            },
        },
        Node::Leaf(Leaf::Optional(inner)) => match value {
            Value::Optional(payload) => encode_optional(stream, payload, inner),
            _ => {
                proof {
                    assert(false);
                }
                Err(())
            },
        },
        Node::Leaf(Leaf::Union(variants)) => match value {
            Value::Union(tag, slots) => encode_union(stream, *tag, slots, variants),
            _ => {
                proof {
                    assert(false);
                }
                Err(())
            },
        },
        Node::Record(fields) => match value {
            Value::Record(slots) => {
                proof {
                    assert(vals_of(slots@).len() == slots@.len());
                    assert(val_of(*value) == Val::Record(vals_of(slots@)));
                }
                encode_fields(stream, slots, fields)
            },
            _ => {
                proof {
                    assert(false);
                }
                Err(())
            },
        },
    }
}

/// Encodes a sequence: its length, then its items.
fn encode_list(stream: &mut SerStream, items: &Vec<Value>, inner: &Node) -> (res: Result<(), ()>)
    requires
        forall|i: int| 0 <= i < items@.len() ==> admits(*inner, #[trigger] vals_of(items@)[i]),
    ensures
        ({
            let whole = varint(items@.len()) + wire_items(*inner, vals_of(items@), items@.len());
            &&& res is Ok <==> whole.len() <= old(stream)@.room()
            &&& res is Ok ==> final(stream)@ == old(stream)@.put(whole)
            &&& res is Err ==> old(stream)@.cut_short(final(stream)@, whole)
        }),
    decreases inner, 2nat,
{
    let ghost start = stream@;
    let len: usize = items.len();
    let ghost head = len.wire();
    let ghost body = wire_items(*inner, vals_of(items@), items@.len());
    if len.serialize(stream).is_err() {
        proof {
            start.lemma_cut_short_head(stream@, head, body);
        }
        return Err(());
    }
    let res = encode_items(stream, items, inner);
    proof {
        if res is Ok {
            start.lemma_put_put(head, body);
        } else {
            start.lemma_cut_short_tail(stream@, head, body);
        }
    }
    res
}

/// Encodes an optional: its presence, then the payload where there is one.
fn encode_optional(stream: &mut SerStream, payload: &Option<Box<Value>>, inner: &Node) -> (res:
    Result<(), ()>)
    requires
        payload matches Some(v) ==> admits(*inner, val_of(**v)),
    ensures
        ({
            let whole = match payload {
                Some(v) => seq![1u8] + wire(*inner, val_of(**v)),
                None => seq![0u8],
            };
            &&& res is Ok <==> whole.len() <= old(stream)@.room()
            &&& res is Ok ==> final(stream)@ == old(stream)@.put(whole)
            &&& res is Err ==> old(stream)@.cut_short(final(stream)@, whole)
        }),
    decreases inner, 2nat,
{
    let ghost start = stream@;
    match payload {
        Some(v) => {
            let present: bool = true;
            let ghost head = present.wire();
            let ghost body = wire(*inner, val_of(**v));
            if present.serialize(stream).is_err() {
                proof {
                    start.lemma_cut_short_head(stream@, head, body);
                }
                return Err(());
            }
            let res = encode_walk(stream, v, inner);
            proof {
                if res is Ok {
                    start.lemma_put_put(head, body);
                } else {
                    start.lemma_cut_short_tail(stream@, head, body);
                }
            }
            res
        },
        None => {
            let present: bool = false;
            present.serialize(stream)
        },
    }
}

/// Encodes a tagged union: the index of the variant, then the variant's
/// payload as a record.
fn encode_union(stream: &mut SerStream, tag: u32, slots: &Vec<Value>, variants: &Vec<Node>) -> (res:
    Result<(), ()>)
    requires
        tag < variants@.len(),
        admits(variants@[tag as int], Val::Record(vals_of(slots@))),
    ensures
        ({
            let whole = varint(tag as nat) + wire(
                variants@[tag as int],
                Val::Record(vals_of(slots@)),
            );
            &&& res is Ok <==> whole.len() <= old(stream)@.room()
            &&& res is Ok ==> final(stream)@ == old(stream)@.put(whole)
            &&& res is Err ==> old(stream)@.cut_short(final(stream)@, whole)
        }),
    decreases variants, 0nat,
{
    let ghost start = stream@;
    let ghost head = tag.wire();
    let ghost body = wire(variants@[tag as int], Val::Record(vals_of(slots@)));
    if tag.serialize(stream).is_err() {
        proof {
            start.lemma_cut_short_head(stream@, head, body);
        }
        return Err(());
    }
    match &variants[tag as usize] {
        Node::Record(fields) => {
            let res = encode_fields(stream, slots, fields);
            proof {
                if res is Ok {
                    start.lemma_put_put(head, body);
                } else {
                    start.lemma_cut_short_tail(stream@, head, body);
                }
            }
            res
        },
        Node::Leaf(_) => {
            proof {
                assert(false);
            }
            Err(())
        },
    }
}

/// Encodes `items` in order, each as the type that `inner` describes, and
/// stops at the first that does not fit.
pub fn encode_items(stream: &mut SerStream, items: &Vec<Value>, inner: &Node) -> (res: Result<
    (),
    (),
>)
    requires
        forall|i: int| 0 <= i < items@.len() ==> admits(*inner, #[trigger] vals_of(items@)[i]),
    ensures
        res is Ok <==> wire_items(*inner, vals_of(items@), items@.len()).len() <= old(
            stream,
        )@.room(),
        res is Ok ==> final(stream)@ == old(stream)@.put(
            wire_items(*inner, vals_of(items@), items@.len()),
        ),
        res is Err ==> old(stream)@.cut_short(
            final(stream)@,
            wire_items(*inner, vals_of(items@), items@.len()),
        ),
    decreases inner, 1nat,
{
    let ghost start = stream@;
    let ghost vals = vals_of(items@);
    let ghost total = wire_items(*inner, vals, items@.len());
    let n: usize = items.len();
    let mut i: usize = 0;
    proof {
        start.lemma_put_empty();
    }
    while i < n
        invariant
            start == old(stream)@,
            n == items@.len(),
            i <= n,
            vals == vals_of(items@),
            total == wire_items(*inner, vals, n as nat),
            forall|i: int| 0 <= i < items@.len() ==> admits(*inner, #[trigger] vals[i]),
            wire_items(*inner, vals, i as nat).len() <= start.room(),
            stream@ == start.put(wire_items(*inner, vals, i as nat)),
        decreases n - i,
    {
        let ghost done = wire_items(*inner, vals, i as nat);
        let ghost this = wire(*inner, vals[i as int]);
        let ghost mid = stream@;
        proof {
            assert(admits(*inner, vals[i as int]));
        }
        let res = encode_walk(stream, &items[i], inner);
        proof {
            lemma_wire_items_prefix(*inner, vals, (i + 1) as nat, n as nat);
            let rest = total.skip((done + this).len() as int);
            assert(done + this + rest =~= total);
            start.lemma_put_next(mid, stream@, done, this, rest, res is Ok);
        }
        if res.is_err() {
            return Err(());
        }
        i = i + 1;
    }
    Ok(())
}

/// Encodes the fields of a record in list order, each taken from its slot
/// of `slots`, and stops at the first that does not fit.
pub fn encode_fields(
    stream: &mut SerStream,
    slots: &Vec<Value>,
    fields: &Vec<FieldDescriptor>,
) -> (res: Result<(), ()>)
    requires
        forall|i: int|
            0 <= i < fields@.len() ==> (#[trigger] fields@[i]).offset < slots@.len() && admits(
                fields@[i].node,
                vals_of(slots@)[fields@[i].offset as int],
            ),
    ensures
        res is Ok <==> wire_fields(fields@, vals_of(slots@), fields@.len()).len() <= old(
            stream,
        )@.room(),
        res is Ok ==> final(stream)@ == old(stream)@.put(
            wire_fields(fields@, vals_of(slots@), fields@.len()),
        ),
        res is Err ==> old(stream)@.cut_short(
            final(stream)@,
            wire_fields(fields@, vals_of(slots@), fields@.len()),
        ),
    decreases fields, 1nat,
{
    let ghost start = stream@;
    let ghost vals = vals_of(slots@);
    let ghost total = wire_fields(fields@, vals, fields@.len());
    let n: usize = fields.len();
    let mut i: usize = 0;
    proof {
        start.lemma_put_empty();
    }
    while i < n
        invariant
            start == old(stream)@,
            n == fields@.len(),
            i <= n,
            vals == vals_of(slots@),
            total == wire_fields(fields@, vals, n as nat),
            forall|i: int|
                0 <= i < fields@.len() ==> (#[trigger] fields@[i]).offset < slots@.len() && admits(
                    fields@[i].node,
                    vals[fields@[i].offset as int],
                ),
            wire_fields(fields@, vals, i as nat).len() <= start.room(),
            stream@ == start.put(wire_fields(fields@, vals, i as nat)),
        decreases n - i,
    {
        let field: &FieldDescriptor = &fields[i];
        let ghost done = wire_fields(fields@, vals, i as nat);
        let ghost this = wire(field.node, vals[field.offset as int]);
        let ghost mid = stream@;
        let res = encode_walk(stream, &slots[field.offset], &field.node);
        proof {
            lemma_wire_fields_prefix(fields@, vals, (i + 1) as nat, n as nat);
            let rest = total.skip((done + this).len() as int);
            assert(done + this + rest =~= total);
            start.lemma_put_next(mid, stream@, done, this, rest, res is Ok);
        }
        if res.is_err() {
            return Err(());
        }
        i = i + 1;
    }
    Ok(())
}

/// Decodes one value of the type that `node` describes: a leaf by its
/// codec, a record field by field in list order, each field put into its
/// slot. Fails exactly where the front of the stream is no well-formed
/// value of that type; the stream has then passed over some of its bytes.
pub fn decode_walk(stream: &mut DeserStream, node: &Node) -> (res: Result<Value, ()>)
    requires
        node.wf(),
    ensures
        match parse(*node, old(stream)@) {
            Some((v, n)) => res matches Ok(r) && val_of(r) == v && final(stream)@ == old(
                stream,
            )@.skip(n as int),
            None => res is Err && final(stream)@.is_suffix_of(old(stream)@),
        },
    decreases node, 0nat,
{
    match node {
        Node::Leaf(Leaf::Prim(prim)) => match deserialize_scalar(*prim, stream) {
            Ok(x) => Ok(Value::Scalar(x)),
            Err(_) => Err(()),
        },
        Node::Leaf(Leaf::Text) => match String::deserialize(stream) {
            Ok(text) => Ok(Value::Text(text)),
            Err(_) => Err(()),
        },
        Node::Leaf(Leaf::List(inner)) => match decode_list(stream, inner) {
            Ok(items) => Ok(Value::List(items)),
            Err(_) => Err(()),
        },
        Node::Leaf(Leaf::Array(inner, count)) => match decode_items(stream, inner, *count) {
            Ok(items) => Ok(Value::Array(items)),
            Err(_) => Err(()),
        },
        Node::Leaf(Leaf::Optional(inner)) => match decode_optional(stream, inner) {
            Ok(payload) => Ok(Value::Optional(payload)),
            Err(_) => Err(()),
        },
        Node::Leaf(Leaf::Union(variants)) => match decode_union(stream, variants) {
            Ok((tag, slots)) => Ok(Value::Union(tag, slots)),
            Err(_) => Err(()),
        },
        Node::Record(fields) => match decode_fields(stream, fields) {
            Ok(slots) => Ok(Value::Record(slots)),
            Err(_) => Err(()),
        },
    }
}

/// Decodes a sequence: its length, then as many items.
fn decode_list(stream: &mut DeserStream, inner: &Node) -> (res: Result<Vec<Value>, ()>)
    requires
        inner.wf(),
    ensures
        ({
            let s = old(stream)@;
            let read = match usize::parse(s) {
                Some((len, k)) => match parse_items(*inner, s.skip(k as int), len as nat) {
                    Some((items, m)) => Some((items, k + m)),
                    None => None,
                },
                None => None,
            };
            match read {
                Some((items, n)) => res matches Ok(r) && vals_of(r@) == items && final(stream)@
                    == s.skip(n as int),
                None => res is Err && final(stream)@.is_suffix_of(s),
            }
        }),
    decreases inner, 2nat,
{
    let ghost s0 = stream@;
    proof {
        usize::lemma_parse_local(s0, Seq::empty());
    }
    let len: usize = match usize::deserialize(stream) {
        Ok(len) => len,
        Err(_) => {
            return Err(());
        },
    };
    let ghost k = usize::parse(s0)->Some_0.1;
    let ghost rest = stream@;
    proof {
        lemma_parse_items_local(*inner, rest, Seq::empty(), len as nat);
    }
    match decode_items(stream, inner, len) {
        Ok(items) => {
            proof {
                let m = parse_items(*inner, rest, len as nat)->Some_0.1;
                assert(rest.skip(m as int) =~= s0.skip((k + m) as int));
            }
            Ok(items)
        },
        Err(_) => {
            proof {
                lemma_suffix_of_skip(stream@, s0, k as int);
            }
            Err(())
        },
    }
}

/// Decodes an optional: its presence, then the payload after a true one.
fn decode_optional(stream: &mut DeserStream, inner: &Node) -> (res: Result<
    Option<Box<Value>>,
    (),
>)
    requires
        inner.wf(),
    ensures
        ({
            let s = old(stream)@;
            let read = match bool::parse(s) {
                Some((present, k)) => if present {
                    match parse(*inner, s.skip(k as int)) {
                        Some((v, m)) => Some((Some(v), k + m)),
                        None => None,
                    }
                } else {
                    Some((None, k))
                },
                None => None,
            };
            match read {
                Some((payload, n)) => res matches Ok(r) && (match r {
                    Some(v) => Some(val_of(*v)),
                    None => None,
                }) == payload && final(stream)@ == s.skip(n as int),
                None => res is Err && final(stream)@.is_suffix_of(s),
            }
        }),
    decreases inner, 2nat,
{
    let ghost s0 = stream@;
    let present: bool = match bool::deserialize(stream) {
        Ok(present) => present,
        Err(_) => {
            return Err(());
        },
    };
    if present {
        let ghost rest = stream@;
        proof {
            lemma_parse_local(*inner, rest, Seq::empty());
        }
        match decode_walk(stream, inner) {
            Ok(v) => {
                proof {
                    let m = parse(*inner, rest)->Some_0.1;
                    assert(rest.skip(m as int) =~= s0.skip((1 + m) as int));
                }
                Ok(Some(Box::new(v)))
            },
            Err(_) => {
                proof {
                    lemma_suffix_of_skip(stream@, s0, 1);
                }
                Err(())
            },
        }
    } else {
        Ok(None)
    }
}

/// Decodes a tagged union: the index of the variant, which must name a
/// declared variant, then that variant's payload as a record.
fn decode_union(stream: &mut DeserStream, variants: &Vec<Node>) -> (res: Result<
    (u32, Vec<Value>),
    (),
>)
    requires
        forall|i: int|
            0 <= i < variants@.len() ==> (#[trigger] variants@[i]) is Record && variants@[i].wf(),
    ensures
        ({
            let s = old(stream)@;
            let read = match u32::parse(s) {
                Some((tag, k)) => if tag < variants@.len() {
                    match parse(variants@[tag as int], s.skip(k as int)) {
                        Some((Val::Record(slots), m)) => Some((tag, slots, k + m)),
                        _ => None,
                    }
                } else {
                    None
                },
                None => None,
            };
            match read {
                Some((tag, slots, n)) => res matches Ok(r) && r.0 == tag && vals_of(r.1@) == slots
                    && final(stream)@ == s.skip(n as int),
                None => res is Err && final(stream)@.is_suffix_of(s),
            }
        }),
    decreases variants, 0nat,
{
    let ghost s0 = stream@;
    proof {
        u32::lemma_parse_local(s0, Seq::empty());
    }
    let tag: u32 = match u32::deserialize(stream) {
        Ok(tag) => tag,
        Err(_) => {
            return Err(());
        },
    };
    let ghost k = u32::parse(s0)->Some_0.1;
    let ghost rest = stream@;
    proof {
        crate::impls::scalars::lemma_skip_is_suffix(s0, k as int);
    }
    if (tag as usize) < variants.len() {
        match &variants[tag as usize] {
            Node::Record(fields) => {
                proof {
                    assert(variants@[tag as int].wf());
                    lemma_parse_fields_local(fields@, rest, Seq::empty(), fields@.len());
                }
                match decode_fields(stream, fields) {
                    Ok(slots) => {
                        proof {
                            let m = parse_fields(fields@, rest, fields@.len())->Some_0.1;
                            assert(rest.skip(m as int) =~= s0.skip((k + m) as int));
                        }
                        Ok((tag, slots))
                    },
                    Err(_) => {
                        proof {
                            lemma_suffix_of_skip(stream@, s0, k as int);
                        }
                        Err(())
                    },
                }
            },
            Node::Leaf(_) => {
                proof {
                    assert(false);
                }
                Err(())
            },
        }
    } else {
        Err(())
    }
}

/// Decodes `count` values, each of the type that `inner` describes, and
/// stops at the first that does not read.
pub fn decode_items(stream: &mut DeserStream, inner: &Node, count: usize) -> (res: Result<
    Vec<Value>,
    (),
>)
    requires
        inner.wf(),
    ensures
        match parse_items(*inner, old(stream)@, count as nat) {
            Some((items, n)) => res matches Ok(r) && vals_of(r@) == items && final(stream)@ == old(
                stream,
            )@.skip(n as int),
            None => res is Err && final(stream)@.is_suffix_of(old(stream)@),
        },
    decreases inner, 1nat,
{
    let ghost s0 = stream@;
    let ghost mut used: nat = 0;
    let mut out: Vec<Value> = Vec::new();
    let mut i: usize = 0;
    proof {
        assert(s0.skip(0) =~= s0);
        assert(vals_of(out@) =~= Seq::empty());
    }
    while i < count
        invariant
            s0 == old(stream)@,
            inner.wf(),
            i <= count,
            used <= s0.len(),
            stream@ == s0.skip(used as int),
            parse_items(*inner, s0, i as nat) == Some((vals_of(out@), used)),
        decreases count - i,
    {
        let ghost before = vals_of(out@);
        proof {
            lemma_parse_local(*inner, s0.skip(used as int), Seq::empty());
        }
        match decode_walk(stream, inner) {
            Ok(item) => {
                out.push(item);
                proof {
                    let (v, m) = parse(*inner, s0.skip(used as int))->Some_0;
                    assert(vals_of(out@) =~= before.push(v));
                    assert(s0.skip(used as int).skip(m as int) =~= s0.skip((used + m) as int));
                    used = used + m;
                }
            },
            Err(_) => {
                proof {
                    lemma_parse_items_fails(*inner, s0, (i + 1) as nat, count as nat);
                    lemma_suffix_of_skip(stream@, s0, used as int);
                }
                return Err(());
            },
        }
        i = i + 1;
    }
    Ok(out)
}

/// Decodes the fields of a record in list order and puts each into its
/// slot; stops at the first that does not read.
pub fn decode_fields(stream: &mut DeserStream, fields: &Vec<FieldDescriptor>) -> (res: Result<
    Vec<Value>,
    (),
>)
    requires
        covers_slots(fields@),
        forall|i: int| 0 <= i < fields@.len() ==> (#[trigger] fields@[i]).node.wf(),
    ensures
        match parse_fields(fields@, old(stream)@, fields@.len()) {
            Some((vals, n)) => res matches Ok(r) && vals_of(r@) == place(fields@, vals) && final(stream)@ == old(stream)@.skip(n as int),
            None => res is Err && final(stream)@.is_suffix_of(old(stream)@),
        },
    decreases fields, 1nat,
{
    let ghost s0 = stream@;
    let n: usize = fields.len();
    let mut slots: Vec<Value> = Vec::new();
    let mut j: usize = 0;
    while j < n
        invariant
            j <= n,
            slots@.len() == j,
        decreases n - j,
    {
        slots.push(Value::Record(Vec::new()));
        j = j + 1;
    }
    let ghost mut used: nat = 0;
    let ghost mut vals: Seq<Val> = Seq::empty();
    let mut i: usize = 0;
    proof {
        assert(s0.skip(0) =~= s0);
    }
    while i < n
        invariant
            s0 == old(stream)@,
            n == fields@.len(),
            covers_slots(fields@),
            forall|i: int| 0 <= i < fields@.len() ==> (#[trigger] fields@[i]).node.wf(),
            i <= n,
            slots@.len() == n,
            used <= s0.len(),
            stream@ == s0.skip(used as int),
            parse_fields(fields@, s0, i as nat) == Some((vals, used)),
            vals.len() == i,
            forall|k: int| 0 <= k < i ==> val_of(slots@[(#[trigger] fields@[k]).offset as int]) == vals[k],
        decreases n - i,
    {
        let field: &FieldDescriptor = &fields[i];
        proof {
            lemma_parse_local(field.node, s0.skip(used as int), Seq::empty());
        }
        match decode_walk(stream, &field.node) {
            Ok(item) => {
                proof {
                    let (v, m) = parse(field.node, s0.skip(used as int))->Some_0;
                    assert(s0.skip(used as int).skip(m as int) =~= s0.skip((used + m) as int));
                    used = used + m;
                    vals = vals.push(v);
                }
                slots[field.offset] = item;
            },
            Err(_) => {
                proof {
                    lemma_parse_fields_fails(fields@, s0, (i + 1) as nat, n as nat);
                    lemma_suffix_of_skip(stream@, s0, used as int);
                }
                return Err(());
            },
        }
        i = i + 1;
    }
    proof {
        assert(vals_of(slots@) =~= place(fields@, vals)) by {
            assert forall|slot: int| 0 <= slot < n implies vals_of(slots@)[slot] == place(
                fields@,
                vals,
            )[slot] by {
                assert(slot_filled(fields@, slot));
                let k = field_at(fields@, slot);
                assert(fields@[k].offset == slot);
            }
        }
    }
    Ok(slots)
}

/// Tells whether `value` is a value of the type that `node` describes.
pub fn accepts(node: &Node, value: &Value) -> (ok: bool)
    ensures
        ok == admits(*node, val_of(*value)),
    decreases node, 0nat,
{
    match node {
        Node::Leaf(Leaf::Prim(prim)) => match value {
            Value::Scalar(x) => x.kind() == *prim,
            _ => false,
        },
        Node::Leaf(Leaf::Text) => match value {
            Value::Text(text) => {
                let bytes: &[u8] = text.as_str().as_bytes();
                let len: usize = bytes.len();
                proof {
                    assert(bytes@ == encode_utf8(text@));
                    assert(len == bytes@.len());
                }
                true
            },
            _ => false,
        },
        Node::Leaf(Leaf::List(inner)) => match value {
            Value::List(items) => {
                let len: usize = items.len();
                proof {
                    assert(vals_of(items@).len() == items@.len());
                }
                accepts_items(inner, items)
            },
            _ => false,
        },
        Node::Leaf(Leaf::Array(inner, count)) => match value {
            Value::Array(items) => {
                proof {
                    assert(vals_of(items@).len() == items@.len());
                }
                items.len() == *count && accepts_items(inner, items)
            },
            _ => false,
        },
        Node::Leaf(Leaf::Optional(inner)) => match value {
            Value::Optional(payload) => match payload {
                Some(v) => accepts(inner, v),
                None => true,
            },
            _ => false,
        },
        Node::Leaf(Leaf::Union(variants)) => match value {
            Value::Union(tag, slots) => {
                proof {
                    reveal_with_fuel(admits, 2);
                }
                if (*tag as usize) < variants.len() {
                    match &variants[*tag as usize] {
                        Node::Record(fields) => {
                            proof {
                                assert(vals_of(slots@).len() == slots@.len());
                            }
                            accepts_fields(fields, slots)
                        },
                        Node::Leaf(_) => false,
                    }
                } else {
                    false
                }
            },
            _ => false,
        },
        Node::Record(fields) => match value {
            Value::Record(slots) => {
                proof {
                    assert(vals_of(slots@).len() == slots@.len());
                }
                accepts_fields(fields, slots)
            },
            _ => false,
        },
    }
}

/// Tells whether each of `items` is a value of the type that `inner`
/// describes.
fn accepts_items(inner: &Node, items: &Vec<Value>) -> (ok: bool)
    ensures
        ok == (forall|i: int| 0 <= i < items@.len() ==> admits(*inner, #[trigger] vals_of(items@)[i])),
    decreases inner, 1nat,
{
    let n: usize = items.len();
    let mut i: usize = 0;
    while i < n
        invariant
            n == items@.len(),
            i <= n,
            forall|k: int| 0 <= k < i ==> admits(*inner, #[trigger] vals_of(items@)[k]),
        decreases n - i,
    {
        if !accepts(inner, &items[i]) {
            proof {
                assert(!admits(*inner, vals_of(items@)[i as int]));
            }
            return false;
        }
        i = i + 1;
    }
    true
}

/// Tells whether `slots` are the slots of a record with the fields
/// `fields`: as many slots as fields, and in each field's slot a value of
/// the field's type.
fn accepts_fields(fields: &Vec<FieldDescriptor>, slots: &Vec<Value>) -> (ok: bool)
    ensures
        ok == (slots@.len() == fields@.len() && forall|i: int|
            0 <= i < fields@.len() ==> (#[trigger] fields@[i]).offset < slots@.len() && admits(
                fields@[i].node,
                vals_of(slots@)[fields@[i].offset as int],
            )),
    decreases fields, 1nat,
{
    let n: usize = fields.len();
    if slots.len() != n {
        return false;
    }
    let mut i: usize = 0;
    while i < n
        invariant
            n == fields@.len(),
            n == slots@.len(),
            i <= n,
            forall|k: int|
                0 <= k < i ==> (#[trigger] fields@[k]).offset < slots@.len() && admits(
                    fields@[k].node,
                    vals_of(slots@)[fields@[k].offset as int],
                ),
        decreases n - i,
    {
        let field: &FieldDescriptor = &fields[i];
        if field.offset >= n {
            return false;
        }
        if !accepts(&field.node, &slots[field.offset]) {
            return false;
        }
        i = i + 1;
    }
    true
}

/// Encodes `value` as the type that `node` describes, where it is a value
/// of that type; writes nothing and fails where it is not.
pub fn encode(stream: &mut SerStream, value: &Value, node: &Node) -> (res: Result<(), ()>)
    ensures
        res is Ok <==> admits(*node, val_of(*value)) && wire(*node, val_of(*value)).len() <= old(
            stream,
        )@.room(),
        res is Ok ==> final(stream)@ == old(stream)@.put(wire(*node, val_of(*value))),
        res is Err && admits(*node, val_of(*value)) ==> old(stream)@.cut_short(
            final(stream)@,
            wire(*node, val_of(*value)),
        ),
        !admits(*node, val_of(*value)) ==> final(stream)@ == old(stream)@,
{
    if accepts(node, value) {
        encode_walk(stream, value, node)
    } else {
        Err(())
    }
}

/// Decodes one value of the type that `node` describes, where the
/// description is sound; reads nothing and fails where it is not.
pub fn decode(stream: &mut DeserStream, node: &Node) -> (res: Result<Value, ()>)
    ensures
        node.wf() ==> match parse(*node, old(stream)@) {
            Some((v, n)) => res matches Ok(r) && val_of(r) == v && final(stream)@ == old(
                stream,
            )@.skip(n as int),
            None => res is Err && final(stream)@.is_suffix_of(old(stream)@),
        },
        !node.wf() ==> res is Err && final(stream)@ == old(stream)@,
{
    if node.check() {
        decode_walk(stream, node)
    } else {
        Err(())
    }
}

} // verus!
