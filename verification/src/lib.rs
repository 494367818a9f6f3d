//! A verified decoder for the ObjectProperty reflective binary format:
//! given a type registry and a byte stream, it rebuilds the value tree
//! the stream encodes.
use vstd::prelude::*;

pub mod bits;
pub mod error;
pub mod flags;
pub mod registry;
pub mod serialization;
pub mod strutil;
pub mod type_tag;
pub mod value;
