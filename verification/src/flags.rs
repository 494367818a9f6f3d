use vstd::prelude::*;

verus! {

/// A serializer configuration is part of the state and should be
/// read back while deserializing.
pub const STATEFUL_FLAGS: u32 = 1;

/// Small length prefix values may be compressed into fewer bits.
pub const COMPACT_LENGTH_PREFIXES: u32 = 2;

/// Enums are encoded as human-readable strings rather than integers.
pub const HUMAN_READABLE_ENUMS: u32 = 4;

/// The serialized state is zlib-compressed.
pub const WITH_COMPRESSION: u32 = 8;

/// Any property with the delta-encode bit must always have its
/// value serialized.
pub const FORBID_DELTA_ENCODE: u32 = 16;

/// The mask of all serializer flag bits that are defined.
pub const SERIALIZER_FLAG_BITS: u32 = 31;

/// The property is carried over the wire.
pub const TRANSMIT: u32 = 8;

/// The property is carried only on privileged channels.
pub const PRIVILEGED_TRANSMIT: u32 = 16;

/// The property is retired and never decoded in shallow mode.
pub const DEPRECATED: u32 = 64;

/// The property's value is delta-encoded behind a presence bit.
pub const DELTA_ENCODE: u32 = 256;

/// The property decodes as a bitflag composition.
pub const BITS: u32 = 1048576;

/// The property decodes as an enum variant.
pub const ENUM: u32 = 2097152;

/// Whether every bit of `mask` is set in `bits`.
pub open spec fn flags_contain(bits: u32, mask: u32) -> bool {
    bits & mask == mask
}

/// Whether any bit of `mask` is set in `bits`.
pub open spec fn flags_intersect(bits: u32, mask: u32) -> bool {
    bits & mask != 0
}

/// Configuration bits that customize serialization behavior.
#[derive(Clone, Copy, PartialEq, Eq, Structural, Debug)]
pub struct SerializerFlags {
    pub bits: u32,
}

impl SerializerFlags {
    pub fn empty() -> (r: SerializerFlags)
        ensures
            r.bits == 0,
    {
        SerializerFlags { bits: 0 }
    }

    /// Keeps only the serializer flag bits that are defined.
    pub fn from_bits_truncate(bits: u32) -> (r: SerializerFlags)
        ensures
            r.bits == bits & SERIALIZER_FLAG_BITS,
    {
        SerializerFlags { bits: bits & SERIALIZER_FLAG_BITS }
    }

    pub fn contains(&self, mask: u32) -> (r: bool)
        ensures
            r == flags_contain(self.bits, mask),
    {
        self.bits & mask == mask
    }
}

/// The membership bits a property carries in the registry.
#[derive(Clone, Copy, PartialEq, Eq, Structural, Debug)]
pub struct PropertyFlags {
    pub bits: u32,
}

impl PropertyFlags {
    pub fn contains(&self, mask: u32) -> (r: bool)
        ensures
            r == flags_contain(self.bits, mask),
    {
        self.bits & mask == mask
    }

    pub fn intersects(&self, mask: u32) -> (r: bool)
        ensures
            r == flags_intersect(self.bits, mask),
    {
        self.bits & mask != 0
    }
}

} // verus!
