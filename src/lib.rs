//! A compact binary serialization library with a fixed, non-self-describing
//! wire format. A value of a type that implements `Serialize` becomes bytes;
//! `Deserialize` reads it back from a `Bytes` buffer at an offset, or at the
//! buffer's cursor.
//!
//! The format:
//! - integers big-endian, signed ones in two's complement; `usize` and
//!   `isize` as eight bytes on every platform; floats are written by their
//!   callers as the bit patterns that `to_bits` gives;
//! - `bool` as one byte, `1` or `0`; any byte but `0` reads back as true;
//! - `char` as one byte, for ASCII characters only;
//! - `String` as its UTF-8 bytes behind a one-byte count, `WideText` behind a
//!   two-byte count; bytes that are not UTF-8 do not read back;
//! - `Vec` as a two-byte count of elements, then the elements; arrays and
//!   tuples (of two to six components) as their elements in order, with no
//!   prefix; a wider record nests tuples, `(a, (b, c))`, which gives the same
//!   bytes as `(a, b, c)`;
//! - `Option` as one byte, `0` when absent and `1` when present, then the
//!   payload if present; any other byte is an invalid discriminant;
//! - `Dict` as a two-byte count of entries, then each key and its value;
//! - a record as its fields in declared order (the codec of the tuple of its
//!   fields); a tagged union as its variant's ordinal in eight bytes, then
//!   that variant's fields (see `variant`).
//!
//! Each codec states, as spec functions, the bytes that a value becomes and
//! what bytes decode to; its executable functions are proved against them,
//! and its laws (round trip, exact size, truncation) are proved for every
//! value (see `laws`).
pub mod bigend;
pub mod bytes;
pub mod codec;
pub mod error;
pub mod laws;
pub mod list;
pub mod map;
pub mod option;
pub mod primitive;
pub mod text;
pub mod tuple;
pub mod variant;

pub use bytes::Bytes;
pub use codec::{Deserialize, SerialRead, SerialWrite, Serialize};
pub use error::SerializeError;
pub use map::Dict;
pub use text::WideText;
