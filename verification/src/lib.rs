//! A reversible printable-safe representation of arbitrary bytes.
//!
//! A [`DataString`] is built once from a byte sequence: every byte above the
//! 7-bit range is replaced by the sentinel byte `0x1A`, and the byte's value
//! and position are recorded in a side table. The text form can be loaned out
//! and returned, and the original bytes can be reconstructed at any time by
//! replaying the table. At most one live representation exists at a time;
//! take/return operations transfer ownership explicitly.

pub mod masking;
mod value;

pub use value::DataString;
