//! A compact, non-self-describing binary codec: varints for multi-byte
//! integers, zig-zag for signed ones, length prefixes for sequences and a
//! `u32` tag for tagged unions.
//!
//! Every executable function here carries a contract over a mathematical
//! model of the byte streams and of the wire format, and is proved against it.
//!
//! - [`stream`]: the write cursor and the read cursor.
//! - [`wire`]: the wire format of the integers, and what holds of it.
//! - [`ser_varint`], [`de_varint`]: the varint and zig-zag routines.
//! - [`traits`]: what a type implements to travel over the wire.
//! - [`impls`]: the built-in types, from the unit to tuples of seven.
//! - [`node`], [`value`], [`walk`], [`walk_laws`]: descriptions of types,
//!   values of described types, and the walker that encodes and decodes one
//!   by the other.
//! - [`derive`]: from the declaration of a type to the plan of its encoding
//!   and to its description.

pub mod de_varint;
pub mod derive;
pub mod impls;
pub mod node;
pub mod scalar;
pub mod ser_varint;
pub mod stream;
pub mod traits;
pub mod value;
pub mod walk;
pub mod walk_laws;
pub mod wire;

pub use stream::{DeserStream, SerStream};
pub use traits::{Deserialize, RoundTrip, Serialize};
