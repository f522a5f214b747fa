//! Values as the walker sees them: a value of any described type, as a
//! tree.

use crate::scalar::Scalar;
use vstd::prelude::*;

verus! {

/// A value of some described type.
#[derive(Debug, PartialEq, Eq)]
pub enum Value {
    /// A value of a primitive type.
    Scalar(Scalar),
    /// A text string.
    Text(String),
    /// A sequence of any length.
    List(Vec<Value>),
    /// An array of a fixed length.
    Array(Vec<Value>),
    /// An optional.
    Optional(Option<Box<Value>>),
    /// A tagged union: the index of its variant, and the variant's payload,
    /// slot by slot.
    Union(u32, Vec<Value>),
    /// A record, slot by slot, as it lies in memory.
    Record(Vec<Value>),
}

/// What a [`Value`] is to a contract.
pub enum Val {
    /// A value of a primitive type.
    Scalar(Scalar),
    /// A text string, by its characters.
    Text(Seq<char>),
    /// A sequence of any length.
    List(Seq<Val>),
    /// An array of a fixed length.
    Array(Seq<Val>),
    /// An optional.
    Optional(Option<Box<Val>>),
    /// A tagged union: the index of its variant, and the variant's payload,
    /// slot by slot.
    Union(u32, Seq<Val>),
    /// A record, slot by slot.
    Record(Seq<Val>),
}

/// What each of `items` is to a contract, in order.
pub open spec fn vals_of(items: Seq<Value>) -> Seq<Val>
    decreases items,
{
    Seq::new(
        items.len(),
        |i: int|
            if 0 <= i < items.len() {
                val_of(items[i])
            } else {
                Val::Record(Seq::empty())
            },
    )
}

/// What `value` is to a contract.
pub open spec fn val_of(value: Value) -> Val
    decreases value,
{
    match value {
        Value::Scalar(x) => Val::Scalar(x),
        Value::Text(text) => Val::Text(text@),
        Value::List(items) => Val::List(vals_of(items@)),
        Value::Array(items) => Val::Array(vals_of(items@)),
        Value::Optional(inner) => Val::Optional(
            match inner {
                Some(v) => Some(Box::new(val_of(*v))),
                None => None,
            },
        ),
        Value::Union(tag, slots) => Val::Union(tag, vals_of(slots@)),
        Value::Record(slots) => Val::Record(vals_of(slots@)),
    }
}

impl DeepView for Value {
    type V = Val;

    open spec fn deep_view(&self) -> Val {
        val_of(*self)
    }
}

} // verus!
