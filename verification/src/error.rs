use vstd::prelude::*;

verus! {

/// Kinds of failure that can end a deserialization. Every error is
/// fatal to the current call; no partial value is returned.
#[derive(Clone, Copy, PartialEq, Eq, Structural, Debug)]
pub enum Error {
    /// The reader was exhausted.
    UnexpectedEof,
    /// The declared and the produced decompressed lengths disagree,
    /// or the compressed payload itself cannot be inflated.
    CompressionSize,
    /// An identity hash was not present in the registry.
    UnknownType,
    /// A property hash was not present in the type definition.
    UnknownProperty,
    /// An integer value matched no enum variant.
    UnknownEnumVariant,
    /// A type name matched no simple-leaf decoder.
    NotSimple,
    /// A property's declared size disagrees with what it consumed.
    PropertySize,
    /// Property sizes overran the declared object size.
    ObjectSizeMismatch,
    /// A delta-encoded value was absent although absence is forbidden.
    MissingDelta,
    /// The recursion budget was exhausted.
    RecursionLimit,
    /// A human-readable enum payload was not valid UTF-8.
    InvalidUtf8,
}

} // verus!
