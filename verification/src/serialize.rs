//! Persistence interfaces for the host to implement.
//!
//! The index itself persists through [`crate::bk::BkTree::encode`] and
//! [`crate::bk::BkTree::decode`]; these traits name the shape the host's
//! own record types take when it stores them alongside the index.

use vstd::prelude::*;

verus! {

/// A value with a single-line textual form.
pub trait Serializer: Sized {
    /// The value as one line of text.
    fn serialize(&self) -> String;

    /// The value a line of text denotes.
    fn deserialize(ser_str: &str) -> Self;
}

/// A collection with a multi-line textual form, one element per line.
pub trait VecSerializer<T>: Sized {
    /// The collection as text.
    fn serialize(&self) -> String;

    /// The collection a text denotes.
    fn deserialize(ser_vec: &str) -> Self;
}

} // verus!
