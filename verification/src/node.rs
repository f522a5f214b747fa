//! The type descriptor graph: what a type contributes so that the walker
//! can encode and decode its values.

use crate::scalar::Prim;
use vstd::prelude::*;

verus! {

/// How a type that is no plain run of fields goes over the wire: the
/// routine that encodes and decodes it.
#[derive(Debug, PartialEq, Eq)]
pub enum Leaf {
    /// A primitive type, by its own codec.
    Prim(Prim),
    /// A text string: its length in bytes, then its UTF-8 bytes.
    Text,
    /// A sequence: its length, then its items in order.
    List(Box<Node>),
    /// An array of a fixed number of items, in order, with no length.
    Array(Box<Node>, usize),
    /// An optional: its presence as a `bool`, then the payload if present.
    Optional(Box<Node>),
    /// A tagged union: the index of the variant as a `u32`, then the
    /// variant's payload as a record. One record node for each variant, in
    /// declaration order.
    Union(Vec<Node>),
}

/// The description of how to encode and decode some type.
#[derive(Debug, PartialEq, Eq)]
pub enum Node {
    /// A single codec.
    Leaf(Leaf),
    /// A run of fields: the concatenation of each field's encoding, in
    /// list order.
    Record(Vec<FieldDescriptor>),
}

/// One field of a record: where it lies in its aggregate, and the
/// description of its type.
#[derive(Debug, PartialEq, Eq)]
pub struct FieldDescriptor {
    /// The slot of the aggregate that holds the field.
    pub offset: usize,
    /// The description of the field's type.
    pub node: Node,
}

/// Some field of `fields` lies in `slot`.
pub open spec fn slot_filled(fields: Seq<FieldDescriptor>, slot: int) -> bool {
    exists|i: int| 0 <= i < fields.len() && (#[trigger] fields[i]).offset == slot
}

/// The offsets of `fields` name each slot of an aggregate of as many slots
/// exactly once.
pub open spec fn covers_slots(fields: Seq<FieldDescriptor>) -> bool {
    &&& forall|i: int| 0 <= i < fields.len() ==> (#[trigger] fields[i]).offset < fields.len()
    &&& forall|i: int, j: int|
        0 <= i < j < fields.len() ==> (#[trigger] fields[i]).offset != (#[trigger] fields[j]).offset
    &&& forall|slot: int| 0 <= slot < fields.len() ==> #[trigger] slot_filled(fields, slot)
}

/// The field of `fields` that lies in `slot`.
pub open spec fn field_at(fields: Seq<FieldDescriptor>, slot: int) -> int {
    choose|i: int| 0 <= i < fields.len() && (#[trigger] fields[i]).offset == slot
}

impl Node {
    /// The description is sound: every record's fields cover its slots, and
    /// every variant of a union is a record, with no more variants than a
    /// `u32` can index.
    pub open spec fn wf(self) -> bool
        decreases self,
    {
        match self {
            Node::Leaf(Leaf::Prim(_)) => true,
            Node::Leaf(Leaf::Text) => true,
            Node::Leaf(Leaf::List(inner)) => inner.wf(),
            Node::Leaf(Leaf::Array(inner, _)) => inner.wf(),
            Node::Leaf(Leaf::Optional(inner)) => inner.wf(),
            Node::Leaf(Leaf::Union(variants)) => {
                &&& variants@.len() <= u32::MAX
                &&& forall|i: int|
                    0 <= i < variants@.len() ==> (#[trigger] variants@[i]) is Record
                        && variants@[i].wf()
            },
            Node::Record(fields) => {
                &&& covers_slots(fields@)
                &&& forall|i: int| 0 <= i < fields@.len() ==> (#[trigger] fields@[i]).node.wf()
            },
        }
    }
}

/// The items of `items`, last first.
pub fn reversed<T>(items: Vec<T>) -> (res: Vec<T>)
    ensures
        res@.len() == items@.len(),
        forall|k: int| 0 <= k < res@.len() ==> res@[k] == items@[items@.len() - 1 - k],
{
    let ghost all = items@;
    let mut src: Vec<T> = items;
    let mut out: Vec<T> = Vec::new();
    while src.len() > 0
        invariant
            src@.len() <= all.len(),
            src@ == all.take(src@.len() as int),
            out@.len() == all.len() - src@.len(),
            forall|k: int| 0 <= k < out@.len() ==> out@[k] == all[all.len() - 1 - k],
        decreases src@.len(),
    {
        match src.pop() {
            Some(item) => {
                out.push(item);
            },
            None => {},
        }
    }
    out
}

/// `fields` are the fields of a record laid out in declaration order: the
/// `i`-th of the type that the `i`-th of `kinds` describes, in slot `i`.
pub open spec fn in_order(fields: Seq<FieldDescriptor>, kinds: Seq<Node>) -> bool {
    &&& fields.len() == kinds.len()
    &&& forall|i: int|
        0 <= i < fields.len() ==> #[trigger] fields[i] == (FieldDescriptor {
            offset: i as usize,
            node: kinds[i],
        })
}

/// `node` describes a record laid out in declaration order, with fields of
/// the types that `kinds` describe.
pub open spec fn is_ordered_record(node: Node, kinds: Seq<Node>) -> bool {
    node matches Node::Record(fields) && in_order(fields@, kinds)
}

/// The description of a record laid out in declaration order: one field
/// for each of `kinds`, the `i`-th in slot `i`.
pub fn ordered_record(kinds: Vec<Node>) -> (node: Node)
    ensures
        is_ordered_record(node, kinds@),
{
    let n: usize = kinds.len();
    let mut layout: Vec<usize> = Vec::new();
    let mut i: usize = 0;
    while i < n
        invariant
            i <= n,
            layout@.len() == i,
            forall|k: int| 0 <= k < i ==> layout@[k] == k,
        decreases n - i,
    {
        layout.push(i);
        i = i + 1;
    }
    match record_node(&layout, kinds) {
        Some(node) => node,
        None => Node::Record(Vec::new()),
    }
}

/// A record laid out in declaration order, with fields of soundly
/// described types, is soundly described.
pub proof fn lemma_ordered_record_wf(node: Node, kinds: Seq<Node>)
    requires
        is_ordered_record(node, kinds),
        forall|i: int| 0 <= i < kinds.len() ==> (#[trigger] kinds[i]).wf(),
    ensures
        node.wf(),
{
    let fields = node->Record_0;
    vstd::std_specs::vec::axiom_spec_len(&fields);
    assert forall|slot: int| 0 <= slot < fields@.len() implies #[trigger] slot_filled(
        fields@,
        slot,
    ) by {
        assert(fields@[slot].offset == slot);
    }
    assert forall|i: int| 0 <= i < fields@.len() implies (#[trigger] fields@[i]).node.wf() by {
        assert(fields@[i].node == kinds[i]);
    }
}

/// The description of a record: one field for each of `kinds`, in
/// declaration order, the `i`-th of the type that the `i`-th of `kinds`
/// describes and in the slot that the `i`-th of `layout` names. There is
/// none where `layout` and `kinds` differ in length.
pub fn record_node(layout: &Vec<usize>, kinds: Vec<Node>) -> (res: Option<Node>)
    ensures
        res is Some <==> layout@.len() == kinds@.len(),
        res matches Some(node) ==> node matches Node::Record(fields) && fields@.len()
            == kinds@.len() && forall|i: int|
            0 <= i < fields@.len() ==> #[trigger] fields@[i] == (FieldDescriptor {
                offset: layout@[i],
                node: kinds@[i],
            }),
{
    let n: usize = kinds.len();
    if layout.len() != n {
        return None;
    }
    let ghost all = kinds@;
    let mut rest: Vec<Node> = reversed(kinds);
    let mut fields: Vec<FieldDescriptor> = Vec::new();
    let mut i: usize = 0;
    while i < n
        invariant
            n == all.len(),
            n == layout@.len(),
            i <= n,
            rest@.len() == n - i,
            forall|k: int| 0 <= k < rest@.len() ==> rest@[k] == all[n - 1 - k],
            fields@.len() == i,
            forall|k: int|
                0 <= k < i ==> #[trigger] fields@[k] == (FieldDescriptor {
                    offset: layout@[k],
                    node: all[k],
                }),
        decreases n - i,
    {
        match rest.pop() {
            Some(node) => {
                fields.push(FieldDescriptor { offset: layout[i], node });
            },
            None => {},
        }
        i = i + 1;
    }
    Some(Node::Record(fields))
}

/// Tells whether the offsets of `fields` name each slot exactly once.
pub fn check_slots(fields: &Vec<FieldDescriptor>) -> (ok: bool)
    ensures
        ok == covers_slots(fields@),
{
    let n: usize = fields.len();
    let mut i: usize = 0;
    while i < n
        invariant
            n == fields@.len(),
            i <= n,
            forall|k: int| 0 <= k < i ==> (#[trigger] fields@[k]).offset < n,
        decreases n - i,
    {
        if fields[i].offset >= n {
            return false;
        }
        i = i + 1;
    }
    let mut slot: usize = 0;
    while slot < n
        invariant
            n == fields@.len(),
            slot <= n,
            forall|k: int| 0 <= k < n ==> (#[trigger] fields@[k]).offset < n,
            forall|j: int| 0 <= j < slot ==> #[trigger] slot_filled(fields@, j),
            forall|a: int, b: int|
                0 <= a < b < n && (#[trigger] fields@[a]).offset < slot ==> fields@[a].offset != (
                #[trigger] fields@[b]).offset,
        decreases n - slot,
    {
        let mut first: usize = 0;
        while first < n && fields[first].offset != slot
            invariant
                n == fields@.len(),
                first <= n,
                forall|k: int| 0 <= k < first ==> (#[trigger] fields@[k]).offset != slot,
            decreases n - first,
        {
            first = first + 1;
        }
        if first == n {
            proof {
                assert(!slot_filled(fields@, slot as int));
            }
            return false;
        }
        let mut other: usize = first + 1;
        while other < n
            invariant
                n == fields@.len(),
                first < other <= n,
                fields@[first as int].offset == slot,
                forall|k: int| first < k < other ==> (#[trigger] fields@[k]).offset != slot,
            decreases n - other,
        {
            if fields[other].offset == slot {
                return false;
            }
            other = other + 1;
        }
        proof {
            assert(slot_filled(fields@, slot as int));
        }
        slot = slot + 1;
    }
    true
}

impl Node {
    /// Tells whether the description is sound.
    pub fn check(&self) -> (ok: bool)
        ensures
            ok == self.wf(),
        decreases self,
    {
        match self {
            Node::Leaf(Leaf::Prim(_)) => true,
            Node::Leaf(Leaf::Text) => true,
            Node::Leaf(Leaf::List(inner)) => inner.check(),
            Node::Leaf(Leaf::Array(inner, _)) => inner.check(),
            Node::Leaf(Leaf::Optional(inner)) => inner.check(),
            Node::Leaf(Leaf::Union(variants)) => check_variants(variants),
            Node::Record(fields) => check_slots(fields) && check_fields(fields),
        }
    }
}

/// Tells whether `variants` can be the variants of a union: each a sound
/// record, and no more of them than a `u32` can index.
fn check_variants(variants: &Vec<Node>) -> (ok: bool)
    ensures
        ok == (variants@.len() <= u32::MAX && forall|i: int|
            0 <= i < variants@.len() ==> (#[trigger] variants@[i]) is Record && variants@[i].wf()),
    decreases variants,
{
    let n: usize = variants.len();
    if n > 0xffff_ffff {
        return false;
    }
    let mut i: usize = 0;
    while i < n
        invariant
            n == variants@.len(),
            i <= n,
            forall|k: int| 0 <= k < i ==> (#[trigger] variants@[k]) is Record && variants@[k].wf(),
        decreases n - i,
    {
        match &variants[i] {
            Node::Record(_) => {
                if !variants[i].check() {
                    return false;
                }
            },
            Node::Leaf(_) => {
                return false;
            },
        }
        i = i + 1;
    }
    true
}

/// Tells whether the description of each of `fields` is sound.
fn check_fields(fields: &Vec<FieldDescriptor>) -> (ok: bool)
    ensures
        ok == (forall|i: int| 0 <= i < fields@.len() ==> (#[trigger] fields@[i]).node.wf()),
    decreases fields,
{
    let n: usize = fields.len();
    let mut i: usize = 0;
    while i < n
        invariant
            n == fields@.len(),
            i <= n,
            forall|k: int| 0 <= k < i ==> (#[trigger] fields@[k]).node.wf(),
        decreases n - i,
    {
        if !fields[i].node.check() {
            return false;
        }
        i = i + 1;
    }
    true
}

} // verus!
