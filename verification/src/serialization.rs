use std::io::Write;

use vstd::prelude::*;
use vstd::arithmetic::power2::*;
use vstd::slice::slice_to_vec;

use crate::bits::{
    align8, bits_nat, lemma_align8_bounds, lemma_bits_nat_bound, lemma_le_bytes_bound,
    lemma_s_len_after_load, lemma_s_len_monotone, s_len, s_load_le, s_read_bit, s_read_bits,
    s_read_bytes, BitReader,
};
use crate::value::{
    depth_le, insert_member, keys_sorted, mvals_of, pairs_map, pairs_swf, vals_swf, List, Object,
};
use crate::error::Error;
use crate::flags::{
    flags_contain, flags_intersect, PropertyFlags, SerializerFlags, BITS, COMPACT_LENGTH_PREFIXES,
    DELTA_ENCODE, DEPRECATED, ENUM, FORBID_DELTA_ENCODE, HUMAN_READABLE_ENUMS,
    PRIVILEGED_TRANSMIT, SERIALIZER_FLAG_BITS, STATEFUL_FLAGS, TRANSMIT, WITH_COMPRESSION,
};
use crate::registry::{
    find_enum_variant, find_prop, find_property, find_variant, PropM, Property, TypeDef, TypeDefM,
    TypeList,
};
use crate::type_tag::TypeTag;
use crate::strutil::{
    extract_type_argument, spec_starts_with, spec_type_argument, str_eq, str_starts_with,
};
use crate::value::{MValue, Value};
use vstd::utf8::{decode_utf8, valid_utf8};
use crate::strutil::utf8_to_string;
use crate::registry::SoiM;

verus! {

/// Configuration for the [`Deserializer`].
#[derive(Clone, Copy, PartialEq, Eq, Structural, Debug)]
pub struct DeserializerOptions {
    /// The serializer flag bits to use.
    pub flags: SerializerFlags,
    /// Properties are decoded in shallow mode only when they carry
    /// every bit of this mask.
    pub property_mask: PropertyFlags,
    /// Whether the shallow encoding strategy is used for the data.
    pub shallow: bool,
    /// Whether the data is compressed as a whole.
    pub manual_compression: bool,
    /// A recursion limit for nested data.
    pub recursion_limit: u8,
}

impl Default for DeserializerOptions {
    /// Empty flags, transmit-masked properties, exhaustive mode,
    /// no manual compression, and a recursion budget of 127.
    fn default() -> (r: Self)
        ensures
            r.flags.bits == 0,
            r.property_mask.bits == TRANSMIT | PRIVILEGED_TRANSMIT,
            !r.shallow,
            !r.manual_compression,
            r.recursion_limit == 127,
    {
        DeserializerOptions {
            flags: SerializerFlags { bits: 0 },
            property_mask: PropertyFlags { bits: TRANSMIT | PRIVILEGED_TRANSMIT },
            shallow: false,
            manual_compression: false,
            recursion_limit: 127,
        }
    }
}

/// Everything the wire interpretation depends on besides the cursor:
/// the buffer, the active serializer flags, the property mask, the
/// encoding mode, and the registry.
pub struct SCtx {
    pub data: Seq<u8>,
    pub flags: u32,
    pub mask: u32,
    pub shallow: bool,
    pub types: Seq<(u32, TypeDefM)>,
}

/// Outcome of a compact length prefix: one marker bit, then 31 or 7
/// value bits.
pub open spec fn s_compact_len(data: Seq<u8>, pos: int) -> Result<(u64, int), Error> {
    match s_read_bit(data, pos) {
        Ok((large, p1)) => if large {
            s_read_bits(data, p1, 31)
        } else {
            s_read_bits(data, p1, 7)
        },
        Err(e) => Err(e),
    }
}

/// Outcome of a length prefix: realigned, then either compact or a
/// nominal little-endian load of `nominal` bytes.
pub open spec fn s_len_prefix(data: Seq<u8>, flags: u32, pos: int, nominal: nat) -> Result<
    (u64, int),
    Error,
> {
    if flags_contain(flags, COMPACT_LENGTH_PREFIXES) {
        s_compact_len(data, align8(pos))
    } else {
        s_load_le(data, pos, nominal)
    }
}

/// Outcome of a length-prefixed byte string.
pub open spec fn s_read_str(data: Seq<u8>, flags: u32, pos: int) -> Result<(Seq<u8>, int), Error> {
    match s_len_prefix(data, flags, pos, 2) {
        Ok((n, p1)) => s_read_bytes(data, p1, n as nat),
        Err(e) => Err(e),
    }
}

/// Outcome of `n` successive u16 code units appended to `acc`.
pub open spec fn s_wstr_items(data: Seq<u8>, pos: int, n: nat, acc: Seq<u16>) -> Result<
    (Seq<u16>, int),
    Error,
>
    decreases n,
{
    if n == 0 {
        Ok((acc, pos))
    } else {
        match s_load_le(data, pos, 2) {
            Ok((v, p1)) => s_wstr_items(data, p1, (n - 1) as nat, acc.push(v as u16)),
            Err(e) => Err(e),
        }
    }
}

/// Outcome of a length-prefixed wide string.
pub open spec fn s_read_wstr(data: Seq<u8>, flags: u32, pos: int) -> Result<(Seq<u16>, int), Error> {
    match s_len_prefix(data, flags, pos, 2) {
        Ok((n, p1)) => s_wstr_items(data, p1, n as nat, Seq::empty()),
        Err(e) => Err(e),
    }
}

/// The signed reading of an `n`-bit value: the top bit carries
/// weight `-2^(n-1)`.
pub open spec fn sign_extend(v: u64, n: nat) -> i64 {
    if (v as nat) < pow2((n - 1) as nat) {
        v as i64
    } else {
        (v as int - pow2(n) as int) as i64
    }
}

/// Outcome of an `n`-bit signed bit-integer.
pub open spec fn s_signed_bits(data: Seq<u8>, pos: int, n: nat) -> Result<(i64, int), Error> {
    match s_read_bits(data, pos, n) {
        Ok((v, p1)) => Ok((sign_extend(v, n), p1)),
        Err(e) => Err(e),
    }
}


/// The plain integer and floating-point simple type names.
pub open spec fn is_plain_num_name(ty: Seq<char>) -> bool {
    ||| ty == "bool"@
    ||| ty == "char"@
    ||| ty == "unsigned char"@
    ||| ty == "short"@
    ||| ty == "unsigned short"@
    ||| ty == "wchar_t"@
    ||| ty == "int"@
    ||| ty == "long"@
    ||| ty == "unsigned int"@
    ||| ty == "unsigned long"@
    ||| ty == "float"@
    ||| ty == "double"@
    ||| ty == "unsigned __int64"@
    ||| ty == "gid"@
    ||| ty == "union gid"@
}

/// The bit-packed integer simple type names.
pub open spec fn is_bit_num_name(ty: Seq<char>) -> bool {
    ||| ty == "bi2"@
    ||| ty == "bui2"@
    ||| ty == "bi3"@
    ||| ty == "bui3"@
    ||| ty == "bi4"@
    ||| ty == "bui4"@
    ||| ty == "bi5"@
    ||| ty == "bui5"@
    ||| ty == "bi6"@
    ||| ty == "bui6"@
    ||| ty == "bi7"@
    ||| ty == "bui7"@
    ||| ty == "s24"@
    ||| ty == "u24"@
}

/// The numeric simple type names, bit-integers included.
pub open spec fn is_num_name(ty: Seq<char>) -> bool {
    is_plain_num_name(ty) || is_bit_num_name(ty)
}

/// The string and fixed-geometry simple type names.
pub open spec fn is_misc_name(ty: Seq<char>) -> bool {
    ||| ty == "std::string"@
    ||| ty == "char*"@
    ||| ty == "std::wstring"@
    ||| ty == "wchar_t*"@
    ||| ty == "class Color"@
    ||| ty == "class Vector3D"@
    ||| ty == "class Quaternion"@
    ||| ty == "class Euler"@
    ||| ty == "class Matrix3x3"@
}

/// The flat (non-parametric) simple type names.
pub open spec fn is_atomic_ty(ty: Seq<char>) -> bool {
    is_num_name(ty) || is_misc_name(ty)
}

/// Whether the name denotes a parametric simple shape.
pub open spec fn is_parametric_ty(ty: Seq<char>) -> bool {
    ||| spec_starts_with(ty, "class Size"@)
    ||| spec_starts_with(ty, "class Point"@)
    ||| spec_starts_with(ty, "class Rect"@)
}

/// Whether the leaf dispatcher accepts the type name.
pub open spec fn is_simple_ty(ty: Seq<char>) -> bool
    decreases ty.len(),
{
    if is_atomic_ty(ty) {
        true
    } else if is_parametric_ty(ty) {
        match spec_type_argument(ty) {
            Some(arg) => arg.len() < ty.len() && is_simple_ty(arg),
            None => false,
        }
    } else {
        false
    }
}

/// Outcome of `k` successive little-endian loads of `width` bytes
/// appended to `acc`.
pub open spec fn s_load_run(data: Seq<u8>, pos: int, width: nat, k: nat, acc: Seq<u64>) -> Result<
    (Seq<u64>, int),
    Error,
>
    decreases k,
{
    if k == 0 {
        Ok((acc, pos))
    } else {
        match s_load_le(data, pos, width) {
            Ok((v, p1)) => s_load_run(data, p1, width, (k - 1) as nat, acc.push(v)),
            Err(e) => Err(e),
        }
    }
}

/// A byte read back as a signed `char`.
pub open spec fn s_i8(v: u64) -> i64 {
    if v < 128 {
        v as i64
    } else {
        (v - 256) as i64
    }
}

/// Two bytes read back as a signed `short`.
pub open spec fn s_i16(v: u64) -> i64 {
    if v < 0x8000 {
        v as i64
    } else {
        (v - 0x10000) as i64
    }
}

/// Four bytes read back as a signed `int`.
pub open spec fn s_i32(v: u64) -> i64 {
    if v < 0x80000000 {
        v as i64
    } else {
        (v - 0x100000000) as i64
    }
}

/// Outcome of one plain integer or floating-point simple leaf.
pub open spec fn s_simple_plain_num(cx: SCtx, ty: Seq<char>, pos: int) -> Result<
    (MValue, int),
    Error,
> {

    if ty == "bool"@ {
        match s_read_bit(cx.data, pos) {
            Ok((b, p)) => Ok((MValue::Bool(b), p)),
            Err(e) => Err(e),
        }
    } else if ty == "char"@ {
        match s_load_le(cx.data, pos, 1) {
            Ok((v, p)) => Ok((MValue::Signed(s_i8(v)), p)),
            Err(e) => Err(e),
        }
    } else if ty == "unsigned char"@ {
        match s_load_le(cx.data, pos, 1) {
            Ok((v, p)) => Ok((MValue::Unsigned(v), p)),
            Err(e) => Err(e),
        }
    } else if ty == "short"@ {
        match s_load_le(cx.data, pos, 2) {
            Ok((v, p)) => Ok((MValue::Signed(s_i16(v)), p)),
            Err(e) => Err(e),
        }
    } else if ty == "unsigned short"@ || ty == "wchar_t"@ {
        match s_load_le(cx.data, pos, 2) {
            Ok((v, p)) => Ok((MValue::Unsigned(v), p)),
            Err(e) => Err(e),
        }
    } else if ty == "int"@ || ty == "long"@ {
        match s_load_le(cx.data, pos, 4) {
            Ok((v, p)) => Ok((MValue::Signed(s_i32(v)), p)),
            Err(e) => Err(e),
        }
    } else if ty == "unsigned int"@ || ty == "unsigned long"@ {
        match s_load_le(cx.data, pos, 4) {
            Ok((v, p)) => Ok((MValue::Unsigned(v), p)),
            Err(e) => Err(e),
        }
    } else if ty == "float"@ {
        match s_load_le(cx.data, pos, 4) {
            Ok((v, p)) => Ok((MValue::Float32(v as u32), p)),
            Err(e) => Err(e),
        }
    } else if ty == "double"@ {
        match s_load_le(cx.data, pos, 8) {
            Ok((v, p)) => Ok((MValue::Float64(v), p)),
            Err(e) => Err(e),
        }
    } else if ty == "unsigned __int64"@ || ty == "gid"@ || ty == "union gid"@ {
        match s_load_le(cx.data, pos, 8) {
            Ok((v, p)) => Ok((MValue::Unsigned(v), p)),
            Err(e) => Err(e),
        }
    } else {
        Err(Error::NotSimple)
    }
}

/// Outcome of one bit-packed integer simple leaf.
pub open spec fn s_simple_bit_num(cx: SCtx, ty: Seq<char>, pos: int) -> Result<
    (MValue, int),
    Error,
> {
    if ty == "bi2"@ || ty == "bi3"@ || ty == "bi4"@ || ty == "bi5"@ || ty == "bi6"@ || ty
        == "bi7"@ || ty == "s24"@ {
        let n: nat = if ty == "s24"@ {
            24nat
        } else if ty == "bi2"@ {
            2nat
        } else if ty == "bi3"@ {
            3nat
        } else if ty == "bi4"@ {
            4nat
        } else if ty == "bi5"@ {
            5nat
        } else if ty == "bi6"@ {
            6nat
        } else {
            7nat
        };
        match s_signed_bits(cx.data, pos, n) {
            Ok((v, p)) => Ok((MValue::Signed(v), p)),
            Err(e) => Err(e),
        }
    } else if ty == "bui2"@ || ty == "bui3"@ || ty == "bui4"@ || ty == "bui5"@ || ty == "bui6"@
        || ty == "bui7"@ || ty == "u24"@ {
        let n: nat = if ty == "u24"@ {
            24nat
        } else if ty == "bui2"@ {
            2nat
        } else if ty == "bui3"@ {
            3nat
        } else if ty == "bui4"@ {
            4nat
        } else if ty == "bui5"@ {
            5nat
        } else if ty == "bui6"@ {
            6nat
        } else {
            7nat
        };
        match s_read_bits(cx.data, pos, n) {
            Ok((v, p)) => Ok((MValue::Unsigned(v), p)),
            Err(e) => Err(e),
        }
    } else {
        Err(Error::NotSimple)
    }
}

/// Outcome of one numeric simple leaf.
pub open spec fn s_simple_num(cx: SCtx, ty: Seq<char>, pos: int) -> Result<(MValue, int), Error> {
    if is_plain_num_name(ty) {
        s_simple_plain_num(cx, ty, pos)
    } else {
        s_simple_bit_num(cx, ty, pos)
    }
}

/// Outcome of one string or fixed-geometry simple leaf.
pub open spec fn s_simple_misc(cx: SCtx, ty: Seq<char>, pos: int) -> Result<(MValue, int), Error> {
    if ty == "std::string"@ || ty == "char*"@ {
        match s_read_str(cx.data, cx.flags, pos) {
            Ok((b, p)) => Ok((MValue::Str(b), p)),
            Err(e) => Err(e),
        }
    } else if ty == "std::wstring"@ || ty == "wchar_t*"@ {
        match s_read_wstr(cx.data, cx.flags, pos) {
            Ok((w, p)) => Ok((MValue::WStr(w), p)),
            Err(e) => Err(e),
        }
    } else if ty == "class Color"@ {
        match s_load_run(cx.data, pos, 1, 4, Seq::empty()) {
            Ok((v, p)) => Ok(
                (
                    MValue::Color {
                        b: v[0] as u8,
                        g: v[1] as u8,
                        r: v[2] as u8,
                        a: v[3] as u8,
                    },
                    p,
                ),
            ),
            Err(e) => Err(e),
        }
    } else if ty == "class Vector3D"@ {
        match s_load_run(cx.data, pos, 4, 3, Seq::empty()) {
            Ok((v, p)) => Ok(
                (MValue::Vec3 { x: v[0] as u32, y: v[1] as u32, z: v[2] as u32 }, p),
            ),
            Err(e) => Err(e),
        }
    } else if ty == "class Quaternion"@ {
        match s_load_run(cx.data, pos, 4, 4, Seq::empty()) {
            Ok((v, p)) => Ok(
                (
                    MValue::Quat {
                        x: v[0] as u32,
                        y: v[1] as u32,
                        z: v[2] as u32,
                        w: v[3] as u32,
                    },
                    p,
                ),
            ),
            Err(e) => Err(e),
        }
    } else if ty == "class Euler"@ {
        match s_load_run(cx.data, pos, 4, 3, Seq::empty()) {
            Ok((v, p)) => Ok(
                (MValue::Euler { pitch: v[0] as u32, roll: v[1] as u32, yaw: v[2] as u32 }, p),
            ),
            Err(e) => Err(e),
        }
    } else if ty == "class Matrix3x3"@ {
        match s_load_run(cx.data, pos, 4, 9, Seq::empty()) {
            Ok((v, p)) => Ok(
                (
                    MValue::Mat3x3 {
                        i: (v[0] as u32, v[1] as u32, v[2] as u32),
                        j: (v[3] as u32, v[4] as u32, v[5] as u32),
                        k: (v[6] as u32, v[7] as u32, v[8] as u32),
                    },
                    p,
                ),
            ),
            Err(e) => Err(e),
        }
    } else {
        Err(Error::NotSimple)
    }
}

/// Outcome of one non-parametric simple leaf.
pub open spec fn s_simple_atomic(cx: SCtx, ty: Seq<char>, pos: int) -> Result<(MValue, int), Error> {
    if is_num_name(ty) {
        s_simple_num(cx, ty, pos)
    } else {
        s_simple_misc(cx, ty, pos)
    }
}

/// Outcome of two successive simple leaves of the same type.
pub open spec fn s_simple_pair(cx: SCtx, arg: Seq<char>, pos: int) -> Result<
    ((MValue, MValue), int),
    Error,
>
    decreases arg.len(), 9int,
{
    match s_simple(cx, arg, pos) {
        Ok((v1, p1)) => match s_simple(cx, arg, p1) {
            Ok((v2, p2)) => Ok(((v1, v2), p2)),
            Err(e) => Err(e),
        },
        Err(e) => Err(e),
    }
}

/// Outcome of four successive simple leaves of the same type.
pub open spec fn s_simple_quad(cx: SCtx, arg: Seq<char>, pos: int) -> Result<
    ((MValue, MValue, MValue, MValue), int),
    Error,
>
    decreases arg.len(), 9int,
{
    match s_simple(cx, arg, pos) {
        Ok((v1, p1)) => match s_simple(cx, arg, p1) {
            Ok((v2, p2)) => match s_simple(cx, arg, p2) {
                Ok((v3, p3)) => match s_simple(cx, arg, p3) {
                    Ok((v4, p4)) => Ok(((v1, v2, v3, v4), p4)),
                    Err(e) => Err(e),
                },
                Err(e) => Err(e),
            },
            Err(e) => Err(e),
        },
        Err(e) => Err(e),
    }
}

/// Outcome of one parametric simple leaf (Size, Point, Rect).
pub open spec fn s_simple_param(cx: SCtx, ty: Seq<char>, pos: int) -> Result<(MValue, int), Error>
    decreases ty.len(), 2int,
{
    if is_parametric_ty(ty) {
        match spec_type_argument(ty) {
            Some(arg) => if arg.len() < ty.len() {
                if spec_starts_with(ty, "class Size"@) {
                    match s_simple_pair(cx, arg, pos) {
                        Ok(((v1, v2), p2)) => Ok((MValue::Size { wh: seq![v1, v2] }, p2)),
                        Err(e) => Err(e),
                    }
                } else if spec_starts_with(ty, "class Point"@) {
                    match s_simple_pair(cx, arg, pos) {
                        Ok(((v1, v2), p2)) => Ok((MValue::Point { xy: seq![v1, v2] }, p2)),
                        Err(e) => Err(e),
                    }
                } else {
                    match s_simple_quad(cx, arg, pos) {
                        Ok(((v1, v2, v3, v4), p4)) => Ok(
                            (MValue::Rect { inner: seq![v1, v2, v3, v4] }, p4),
                        ),
                        Err(e) => Err(e),
                    }
                }
            } else {
                Err(Error::NotSimple)
            },
            None => Err(Error::NotSimple),
        }
    } else {
        Err(Error::NotSimple)
    }
}

/// Outcome of one simple leaf of type `ty` at `pos`: exactly the
/// dispatch table of the format.
pub open spec fn s_simple(cx: SCtx, ty: Seq<char>, pos: int) -> Result<(MValue, int), Error>
    decreases ty.len(), 3int,
{
    if is_atomic_ty(ty) {
        s_simple_atomic(cx, ty, pos)
    } else if is_parametric_ty(ty) {
        s_simple_param(cx, ty, pos)
    } else {
        Err(Error::NotSimple)
    }
}

/// Whether the name is a plain integer or floating-point type.
pub fn is_plain_num_type(ty: &str) -> (r: bool)
    ensures
        r == is_plain_num_name(ty@),
{
    str_eq(ty, "bool") || str_eq(ty, "char") || str_eq(ty, "unsigned char") || str_eq(ty, "short")
        || str_eq(ty, "unsigned short") || str_eq(ty, "wchar_t") || str_eq(ty, "int") || str_eq(
        ty,
        "long",
    ) || str_eq(ty, "unsigned int") || str_eq(ty, "unsigned long") || str_eq(ty, "float")
        || str_eq(ty, "double") || str_eq(ty, "unsigned __int64") || str_eq(ty, "gid") || str_eq(
        ty,
        "union gid",
    )
}

/// Whether the name is a bit-packed integer type.
pub fn is_bit_num_type(ty: &str) -> (r: bool)
    ensures
        r == is_bit_num_name(ty@),
{
    str_eq(ty, "bi2") || str_eq(ty, "bui2") || str_eq(ty, "bi3") || str_eq(ty, "bui3") || str_eq(
        ty,
        "bi4",
    ) || str_eq(ty, "bui4") || str_eq(ty, "bi5") || str_eq(ty, "bui5") || str_eq(ty, "bi6")
        || str_eq(ty, "bui6") || str_eq(ty, "bi7") || str_eq(ty, "bui7") || str_eq(ty, "s24")
        || str_eq(ty, "u24")
}

/// Whether the name is a numeric simple type.
pub fn is_num_type(ty: &str) -> (r: bool)
    ensures
        r == is_num_name(ty@),
{
    is_plain_num_type(ty) || is_bit_num_type(ty)
}

/// Whether the name is a string or fixed-geometry simple type.
pub fn is_misc_type(ty: &str) -> (r: bool)
    ensures
        r == is_misc_name(ty@),
{
    str_eq(ty, "std::string") || str_eq(ty, "char*") || str_eq(ty, "std::wstring") || str_eq(
        ty,
        "wchar_t*",
    ) || str_eq(ty, "class Color") || str_eq(ty, "class Vector3D") || str_eq(
        ty,
        "class Quaternion",
    ) || str_eq(ty, "class Euler") || str_eq(ty, "class Matrix3x3")
}

/// Whether the name is a flat (non-parametric) simple type.
pub fn is_atomic_type(ty: &str) -> (r: bool)
    ensures
        r == is_atomic_ty(ty@),
{
    is_num_type(ty) || is_misc_type(ty)
}

/// Whether the leaf dispatcher accepts the type name.
pub fn is_simple_type(ty: &str) -> (r: bool)
    ensures
        r == is_simple_ty(ty@),
    decreases ty@.len(),
{
    if is_atomic_type(ty) {
        true
    } else if str_starts_with(ty, "class Size") || str_starts_with(ty, "class Point")
        || str_starts_with(ty, "class Rect") {
        match extract_type_argument(ty) {
            Some(arg) => is_simple_type(arg),
            None => false,
        }
    } else {
        false
    }
}


/// The variant names of the set bits below `b`, low bits first.
pub open spec fn s_bit_names(opts: Seq<(Seq<char>, SoiM)>, v: u32, b: nat) -> Result<
    Seq<Seq<char>>,
    Error,
>
    decreases b,
{
    if b == 0 {
        Ok(Seq::empty())
    } else {
        match s_bit_names(opts, v, (b - 1) as nat) {
            Ok(ns) => if v & (1u32 << ((b - 1) as u32)) != 0 {
                match find_enum_variant(opts, 1u32 << ((b - 1) as u32)) {
                    Some(n) => Ok(ns.push(n)),
                    None => Err(Error::UnknownEnumVariant),
                }
            } else {
                Ok(ns)
            },
            Err(e) => Err(e),
        }
    }
}

/// A failed bitflag lookup stays failed for every wider prefix.
pub proof fn lemma_bit_names_err(opts: Seq<(Seq<char>, SoiM)>, v: u32, b: nat, b2: nat)
    requires
        b <= b2,
        s_bit_names(opts, v, b) is Err,
    ensures
        s_bit_names(opts, v, b2) == s_bit_names(opts, v, b),
    decreases b2 - b,
{
    if b2 > b {
        lemma_bit_names_err(opts, v, b, (b2 - 1) as nat);
    }
}

/// Names joined with `" | "` separators.
pub open spec fn join_names(ns: Seq<Seq<char>>) -> Seq<char>
    decreases ns.len(),
{
    if ns.len() == 0 {
        Seq::empty()
    } else if ns.len() == 1 {
        ns[0]
    } else {
        join_names(ns.drop_last()) + " | "@ + ns.last()
    }
}

/// Outcome of an enum or bitflag property of `p` at `pos`.
pub open spec fn s_enum(cx: SCtx, p: PropM, pos: int) -> Result<(MValue, int), Error> {
    if flags_contain(cx.flags, HUMAN_READABLE_ENUMS) {
        match s_read_str(cx.data, cx.flags, pos) {
            Ok((bytes, p1)) => if valid_utf8(bytes) {
                if flags_contain(p.flags, ENUM) {
                    Ok((MValue::Enum(p.ty + "::"@ + decode_utf8(bytes)), p1))
                } else {
                    Ok((MValue::Enum(decode_utf8(bytes)), p1))
                }
            } else {
                Err(Error::InvalidUtf8)
            },
            Err(e) => Err(e),
        }
    } else {
        match s_load_le(cx.data, pos, 4) {
            Ok((v, p1)) => if flags_contain(p.flags, ENUM) {
                match find_enum_variant(p.enum_options, v as u32) {
                    Some(n) => Ok((MValue::Enum(p.ty + "::"@ + n), p1)),
                    None => Err(Error::UnknownEnumVariant),
                }
            } else {
                match s_bit_names(p.enum_options, v as u32, 32) {
                    Ok(ns) => Ok((MValue::Enum(join_names(ns)), p1)),
                    Err(e) => Err(e),
                }
            },
            Err(e) => Err(e),
        }
    }
}


/// The position is within bounds of the buffer's bits.
pub open spec fn in_bounds(data: Seq<u8>, pos: int) -> bool {
    0 <= pos <= 8 * data.len()
}

pub proof fn lemma_len_prefix_mono(data: Seq<u8>, flags: u32, pos: int, nominal: nat)
    requires
        in_bounds(data, pos),
    ensures
        match s_len_prefix(data, flags, pos, nominal) {
            Ok((_, p1)) => pos <= p1 <= 8 * data.len(),
            Err(_) => true,
        },
{
    lemma_align8_bounds(pos, data.len() as int);
    if !flags_contain(flags, COMPACT_LENGTH_PREFIXES) {
        if align8(pos) / 8 + nominal <= data.len() {
            assert(8 * (align8(pos) / 8 + nominal) >= align8(pos));
        }
    }
}

pub proof fn lemma_read_str_mono(data: Seq<u8>, flags: u32, pos: int)
    requires
        in_bounds(data, pos),
    ensures
        match s_read_str(data, flags, pos) {
            Ok((_, p1)) => pos <= p1 <= 8 * data.len(),
            Err(_) => true,
        },
{
    lemma_len_prefix_mono(data, flags, pos, 2);
    match s_len_prefix(data, flags, pos, 2) {
        Ok((n, p1)) => {
            lemma_align8_bounds(p1, data.len() as int);
        },
        Err(_) => {},
    }
}

pub proof fn lemma_wstr_items_mono(data: Seq<u8>, pos: int, n: nat, acc: Seq<u16>)
    requires
        in_bounds(data, pos),
    ensures
        match s_wstr_items(data, pos, n, acc) {
            Ok((_, p1)) => pos <= p1 <= 8 * data.len(),
            Err(_) => true,
        },
    decreases n,
{
    if n > 0 {
        lemma_align8_bounds(pos, data.len() as int);
        match s_load_le(data, pos, 2) {
            Ok((v, p1)) => {
                assert(pos <= p1 <= 8 * data.len());
                lemma_wstr_items_mono(data, p1, (n - 1) as nat, acc.push(v as u16));
            },
            Err(_) => {},
        }
    }
}

pub proof fn lemma_read_wstr_mono(data: Seq<u8>, flags: u32, pos: int)
    requires
        in_bounds(data, pos),
    ensures
        match s_read_wstr(data, flags, pos) {
            Ok((_, p1)) => pos <= p1 <= 8 * data.len(),
            Err(_) => true,
        },
{
    lemma_len_prefix_mono(data, flags, pos, 2);
    match s_len_prefix(data, flags, pos, 2) {
        Ok((n, p1)) => {
            lemma_wstr_items_mono(data, p1, n as nat, Seq::empty());
        },
        Err(_) => {},
    }
}

pub proof fn lemma_load_run_mono(data: Seq<u8>, pos: int, width: nat, k: nat, acc: Seq<u64>)
    requires
        in_bounds(data, pos),
    ensures
        match s_load_run(data, pos, width, k, acc) {
            Ok((_, p1)) => pos <= p1 <= 8 * data.len(),
            Err(_) => true,
        },
    decreases k,
{
    if k > 0 {
        lemma_align8_bounds(pos, data.len() as int);
        match s_load_le(data, pos, width) {
            Ok((v, p1)) => {
                lemma_load_run_mono(data, p1, width, (k - 1) as nat, acc.push(v));
            },
            Err(_) => {},
        }
    }
}

pub proof fn lemma_simple_mono(cx: SCtx, ty: Seq<char>, pos: int)
    requires
        in_bounds(cx.data, pos),
    ensures
        match s_simple(cx, ty, pos) {
            Ok((_, p1)) => pos <= p1 <= 8 * cx.data.len(),
            Err(_) => true,
        },
    decreases ty.len(), 4int,
{
    lemma_align8_bounds(pos, cx.data.len() as int);
    if is_atomic_ty(ty) {
        lemma_read_str_mono(cx.data, cx.flags, pos);
        lemma_read_wstr_mono(cx.data, cx.flags, pos);
        lemma_load_run_mono(cx.data, pos, 1, 4, Seq::empty());
        lemma_load_run_mono(cx.data, pos, 4, 3, Seq::empty());
        lemma_load_run_mono(cx.data, pos, 4, 4, Seq::empty());
        lemma_load_run_mono(cx.data, pos, 4, 9, Seq::empty());
    } else if is_parametric_ty(ty) {
        match spec_type_argument(ty) {
            Some(arg) => if arg.len() < ty.len() {
                lemma_simple_pair_mono(cx, arg, pos);
                lemma_simple_quad_mono(cx, arg, pos);
            } else {
            },
            None => {},
        }
    }
}

pub proof fn lemma_simple_pair_mono(cx: SCtx, arg: Seq<char>, pos: int)
    requires
        in_bounds(cx.data, pos),
    ensures
        match s_simple_pair(cx, arg, pos) {
            Ok((_, p1)) => pos <= p1 <= 8 * cx.data.len(),
            Err(_) => true,
        },
    decreases arg.len(), 10int,
{
    lemma_simple_mono(cx, arg, pos);
    match s_simple(cx, arg, pos) {
        Ok((_, p1)) => {
            lemma_simple_mono(cx, arg, p1);
        },
        Err(_) => {},
    }
}

pub proof fn lemma_simple_quad_mono(cx: SCtx, arg: Seq<char>, pos: int)
    requires
        in_bounds(cx.data, pos),
    ensures
        match s_simple_quad(cx, arg, pos) {
            Ok((_, p1)) => pos <= p1 <= 8 * cx.data.len(),
            Err(_) => true,
        },
    decreases arg.len(), 10int,
{
    lemma_simple_mono(cx, arg, pos);
    match s_simple(cx, arg, pos) {
        Ok((_, p1)) => {
            lemma_simple_mono(cx, arg, p1);
            match s_simple(cx, arg, p1) {
                Ok((_, p2)) => {
                    lemma_simple_mono(cx, arg, p2);
                    match s_simple(cx, arg, p2) {
                        Ok((_, p3)) => {
                            lemma_simple_mono(cx, arg, p3);
                        },
                        Err(_) => {},
                    }
                },
                Err(_) => {},
            }
        },
        Err(_) => {},
    }
}

pub proof fn lemma_enum_mono(cx: SCtx, p: PropM, pos: int)
    requires
        in_bounds(cx.data, pos),
    ensures
        match s_enum(cx, p, pos) {
            Ok((_, p1)) => pos <= p1 <= 8 * cx.data.len(),
            Err(_) => true,
        },
{
    lemma_read_str_mono(cx.data, cx.flags, pos);
    lemma_align8_bounds(pos, cx.data.len() as int);
}


/// Outcome of a whole object (or `Empty`) at `pos` with the given
/// recursion budget. Entering consumes one unit of budget; a spent
/// budget fails with `RecursionLimit`.
pub open spec fn s_deserialize<T: TypeTag>(cx: SCtx, pos: int, budget: nat) -> Result<
    (MValue, int),
    Error,
>
    decreases budget, 0int, 0int,
{
    if budget <= 1 {
        Err(Error::RecursionLimit)
    } else {
        let d = (budget - 1) as nat;
        match T::identity_spec(cx.data, pos, cx.types) {
            Err(e) => Err(e),
            Ok((None, p1)) => Ok((MValue::Empty, p1)),
            Ok((Some(td), p1)) => if cx.shallow {
                match s_props_shallow::<T>(cx, td, 0, p1, d, Map::empty()) {
                    Ok((m, p2)) => Ok((MValue::Object { name: td.name, members: m }, p2)),
                    Err(e) => Err(e),
                }
            } else {
                match s_load_le(cx.data, p1, 4) {
                    Err(e) => Err(e),
                    Ok((osize, p2)) => match s_props_ex::<T>(cx, td, p2, osize as nat, d, Map::empty()) {
                        Ok((m, p3)) => Ok((MValue::Object { name: td.name, members: m }, p3)),
                        Err(e) => Err(e),
                    },
                }
            },
        }
    }
}

/// Outcome of the shallow walk from property index `i` on.
pub open spec fn s_props_shallow<T: TypeTag>(
    cx: SCtx,
    td: TypeDefM,
    i: nat,
    pos: int,
    d: nat,
    acc: Map<Seq<char>, MValue>,
) -> Result<(Map<Seq<char>, MValue>, int), Error>
    decreases d, 8int, td.properties.len() - i,
{
    if i >= td.properties.len() {
        Ok((acc, pos))
    } else {
        let p = td.properties[i as int];
        if flags_contain(p.flags, cx.mask) && !flags_contain(p.flags, DEPRECATED) {
            match s_prop::<T>(cx, p, pos, d) {
                Ok((v, p1)) => s_props_shallow::<T>(cx, td, i + 1, p1, d, acc.insert(p.name, v)),
                Err(e) => Err(e),
            }
        } else {
            s_props_shallow::<T>(cx, td, i + 1, pos, d, acc)
        }
    }
}

/// Outcome of the exhaustive walk while `size` bytes remain to be
/// accounted for.
pub open spec fn s_props_ex<T: TypeTag>(
    cx: SCtx,
    td: TypeDefM,
    pos: int,
    size: nat,
    d: nat,
    acc: Map<Seq<char>, MValue>,
) -> Result<(Map<Seq<char>, MValue>, int), Error>
    decreases d, 8int, size,
{
    if size == 0 {
        Ok((acc, pos))
    } else {
        match s_load_le(cx.data, pos, 4) {
            Err(e) => Err(e),
            Ok((psize, p1)) => match s_load_le(cx.data, p1, 4) {
                Err(e) => Err(e),
                Ok((phash, p2)) => match find_prop(td.properties, phash as u32) {
                    None => Err(Error::UnknownProperty),
                    Some(p) => match s_prop::<T>(cx, p, p2, d) {
                        Err(e) => Err(e),
                        Ok((v, p3)) => {
                            let actual = s_len(cx.data, pos) - s_len(cx.data, p3);
                            if actual != psize {
                                Err(Error::PropertySize)
                            } else if psize > size {
                                Err(Error::ObjectSizeMismatch)
                            } else if psize == 0 {
                                Err(Error::PropertySize)
                            } else {
                                s_props_ex::<T>(
                                    cx,
                                    td,
                                    p3,
                                    (size - psize) as nat,
                                    d,
                                    acc.insert(p.name, v),
                                )
                            }
                        },
                    },
                },
            },
        }
    }
}

/// Outcome of one property: the delta presence bit, then a list or
/// a single value.
pub open spec fn s_prop<T: TypeTag>(cx: SCtx, p: PropM, pos: int, d: nat) -> Result<
    (MValue, int),
    Error,
>
    decreases d, 7int, 1int,
{
    if flags_contain(p.flags, DELTA_ENCODE) {
        match s_read_bit(cx.data, pos) {
            Err(e) => Err(e),
            Ok((present, p1)) => if !present {
                if flags_contain(cx.flags, FORBID_DELTA_ENCODE) {
                    Err(Error::MissingDelta)
                } else {
                    Ok((MValue::Empty, p1))
                }
            } else {
                s_prop_value::<T>(cx, p, p1, d)
            },
        }
    } else {
        s_prop_value::<T>(cx, p, pos, d)
    }
}

/// Outcome of a property's value: a dynamic sequence or one datum.
pub open spec fn s_prop_value<T: TypeTag>(cx: SCtx, p: PropM, pos: int, d: nat) -> Result<
    (MValue, int),
    Error,
>
    decreases d, 7int, 0int,
{
    if p.dynamic {
        s_list::<T>(cx, p, pos, d)
    } else {
        s_data::<T>(cx, p, pos, d)
    }
}

/// Outcome of a dynamic sequence: a length prefix, then that many
/// data items one recursion level down.
pub open spec fn s_list<T: TypeTag>(cx: SCtx, p: PropM, pos: int, d: nat) -> Result<
    (MValue, int),
    Error,
>
    decreases d, 6int, 0int,
{
    match s_len_prefix(cx.data, cx.flags, pos, 4) {
        Err(e) => Err(e),
        Ok((n, p1)) => if d <= 1 {
            Err(Error::RecursionLimit)
        } else {
            match s_items::<T>(cx, p, p1, n as nat, (d - 1) as nat, Seq::empty()) {
                Ok((items, p2)) => Ok((MValue::List(items), p2)),
                Err(e) => Err(e),
            }
        },
    }
}

/// Outcome of `n` successive data items appended to `acc`.
pub open spec fn s_items<T: TypeTag>(
    cx: SCtx,
    p: PropM,
    pos: int,
    n: nat,
    dd: nat,
    acc: Seq<MValue>,
) -> Result<(Seq<MValue>, int), Error>
    decreases dd, 7int, n,
{
    if n == 0 {
        Ok((acc, pos))
    } else {
        match s_data::<T>(cx, p, pos, dd) {
            Ok((v, p1)) => s_items::<T>(cx, p, p1, (n - 1) as nat, dd, acc.push(v)),
            Err(e) => Err(e),
        }
    }
}

/// Outcome of one datum: an enum or bitflag, a simple leaf, or a
/// nested object as the fallback.
pub open spec fn s_data<T: TypeTag>(cx: SCtx, p: PropM, pos: int, d: nat) -> Result<
    (MValue, int),
    Error,
>
    decreases d, 5int, 0int,
{
    if flags_intersect(p.flags, BITS | ENUM) {
        s_enum(cx, p, pos)
    } else if is_simple_ty(p.ty) {
        s_simple(cx, p.ty, pos)
    } else {
        s_deserialize::<T>(cx, pos, d)
    }
}


pub proof fn lemma_deserialize_mono<T: TypeTag>(cx: SCtx, pos: int, budget: nat)
    requires
        in_bounds(cx.data, pos),
    ensures
        match s_deserialize::<T>(cx, pos, budget) {
            Ok((_, p1)) => pos <= p1 <= 8 * cx.data.len(),
            Err(_) => true,
        },
    decreases budget, 0int, 0int,
{
    if budget > 1 {
        let d = (budget - 1) as nat;
        T::identity_spec_mono(cx.data, pos, cx.types);
        match T::identity_spec(cx.data, pos, cx.types) {
            Err(_) => {},
            Ok((None, p1)) => {},
            Ok((Some(td), p1)) => {
                if cx.shallow {
                    lemma_props_shallow_mono::<T>(cx, td, 0, p1, d, Map::empty());
                } else {
                    lemma_align8_bounds(p1, cx.data.len() as int);
                    match s_load_le(cx.data, p1, 4) {
                        Err(_) => {},
                        Ok((osize, p2)) => {
                            lemma_props_ex_mono::<T>(cx, td, p2, osize as nat, d, Map::empty());
                        },
                    }
                }
            },
        }
    }
}

pub proof fn lemma_props_shallow_mono<T: TypeTag>(
    cx: SCtx,
    td: TypeDefM,
    i: nat,
    pos: int,
    d: nat,
    acc: Map<Seq<char>, MValue>,
)
    requires
        in_bounds(cx.data, pos),
    ensures
        match s_props_shallow::<T>(cx, td, i, pos, d, acc) {
            Ok((_, p1)) => pos <= p1 <= 8 * cx.data.len(),
            Err(_) => true,
        },
    decreases d, 8int, td.properties.len() - i,
{
    if i < td.properties.len() {
        let p = td.properties[i as int];
        if flags_contain(p.flags, cx.mask) && !flags_contain(p.flags, DEPRECATED) {
            lemma_prop_mono::<T>(cx, p, pos, d);
            match s_prop::<T>(cx, p, pos, d) {
                Ok((v, p1)) => {
                    lemma_props_shallow_mono::<T>(cx, td, i + 1, p1, d, acc.insert(p.name, v));
                },
                Err(_) => {},
            }
        } else {
            lemma_props_shallow_mono::<T>(cx, td, i + 1, pos, d, acc);
        }
    }
}

pub proof fn lemma_props_ex_mono<T: TypeTag>(
    cx: SCtx,
    td: TypeDefM,
    pos: int,
    size: nat,
    d: nat,
    acc: Map<Seq<char>, MValue>,
)
    requires
        in_bounds(cx.data, pos),
    ensures
        match s_props_ex::<T>(cx, td, pos, size, d, acc) {
            Ok((_, p1)) => pos <= p1 <= 8 * cx.data.len(),
            Err(_) => true,
        },
    decreases d, 8int, size,
{
    if size > 0 {
        lemma_align8_bounds(pos, cx.data.len() as int);
        match s_load_le(cx.data, pos, 4) {
            Err(_) => {},
            Ok((psize, p1)) => {
                lemma_align8_bounds(p1, cx.data.len() as int);
                match s_load_le(cx.data, p1, 4) {
                    Err(_) => {},
                    Ok((phash, p2)) => {
                        match find_prop(td.properties, phash as u32) {
                            None => {},
                            Some(p) => {
                                lemma_prop_mono::<T>(cx, p, p2, d);
                                match s_prop::<T>(cx, p, p2, d) {
                                    Err(_) => {},
                                    Ok((v, p3)) => {
                                        let actual = s_len(cx.data, pos) - s_len(cx.data, p3);
                                        if actual == psize && psize <= size && psize > 0 {
                                            lemma_props_ex_mono::<T>(
                                                cx,
                                                td,
                                                p3,
                                                (size - psize) as nat,
                                                d,
                                                acc.insert(p.name, v),
                                            );
                                        }
                                    },
                                }
                            },
                        }
                    },
                }
            },
        }
    }
}

pub proof fn lemma_prop_mono<T: TypeTag>(cx: SCtx, p: PropM, pos: int, d: nat)
    requires
        in_bounds(cx.data, pos),
    ensures
        match s_prop::<T>(cx, p, pos, d) {
            Ok((_, p1)) => pos <= p1 <= 8 * cx.data.len(),
            Err(_) => true,
        },
    decreases d, 7int, 1int,
{
    if flags_contain(p.flags, DELTA_ENCODE) {
        match s_read_bit(cx.data, pos) {
            Err(_) => {},
            Ok((present, p1)) => {
                if present {
                    lemma_prop_value_mono::<T>(cx, p, p1, d);
                }
            },
        }
    } else {
        lemma_prop_value_mono::<T>(cx, p, pos, d);
    }
}

#[verifier::rlimit(100)]
pub proof fn lemma_prop_value_mono<T: TypeTag>(cx: SCtx, p: PropM, pos: int, d: nat)
    requires
        in_bounds(cx.data, pos),
    ensures
        match s_prop_value::<T>(cx, p, pos, d) {
            Ok((_, p1)) => pos <= p1 <= 8 * cx.data.len(),
            Err(_) => true,
        },
    decreases d, 7int, 0int,
{
    if p.dynamic {
        lemma_list_mono::<T>(cx, p, pos, d);
    } else {
        lemma_data_mono::<T>(cx, p, pos, d);
    }
}

#[verifier::rlimit(100)]
pub proof fn lemma_list_mono<T: TypeTag>(cx: SCtx, p: PropM, pos: int, d: nat)
    requires
        in_bounds(cx.data, pos),
    ensures
        match s_list::<T>(cx, p, pos, d) {
            Ok((_, p1)) => pos <= p1 <= 8 * cx.data.len(),
            Err(_) => true,
        },
    decreases d, 6int, 0int,
{
    lemma_len_prefix_mono(cx.data, cx.flags, pos, 4);
    match s_len_prefix(cx.data, cx.flags, pos, 4) {
        Err(_) => {},
        Ok((n, p1)) => {
            if d > 1 {
                lemma_items_mono::<T>(cx, p, p1, n as nat, (d - 1) as nat, Seq::empty());
            }
        },
    }
}

#[verifier::rlimit(100)]
pub proof fn lemma_items_mono<T: TypeTag>(
    cx: SCtx,
    p: PropM,
    pos: int,
    n: nat,
    dd: nat,
    acc: Seq<MValue>,
)
    requires
        in_bounds(cx.data, pos),
    ensures
        match s_items::<T>(cx, p, pos, n, dd, acc) {
            Ok((_, p1)) => pos <= p1 <= 8 * cx.data.len(),
            Err(_) => true,
        },
    decreases dd, 7int, n,
{
    if n > 0 {
        lemma_data_mono::<T>(cx, p, pos, dd);
        match s_data::<T>(cx, p, pos, dd) {
            Ok((v, p1)) => {
                lemma_items_mono::<T>(cx, p, p1, (n - 1) as nat, dd, acc.push(v));
            },
            Err(_) => {},
        }
    }
}

#[verifier::rlimit(100)]
pub proof fn lemma_data_mono<T: TypeTag>(cx: SCtx, p: PropM, pos: int, d: nat)
    requires
        in_bounds(cx.data, pos),
    ensures
        match s_data::<T>(cx, p, pos, d) {
            Ok((_, p1)) => pos <= p1 <= 8 * cx.data.len(),
            Err(_) => true,
        },
    decreases d, 5int, 0int,
{
    if flags_intersect(p.flags, BITS | ENUM) {
        lemma_enum_mono(cx, p, pos);
    } else if is_simple_ty(p.ty) {
        lemma_simple_mono(cx, p.ty, pos);
    } else {
        lemma_deserialize_mono::<T>(cx, pos, d);
    }
}


/// What the zlib stream in `data` inflates to, if it is well-formed.
pub uninterp spec fn zlib_inflate(data: Seq<u8>) -> Option<Seq<u8>>;

/// Relies on flate2's `ZlibDecoder`: inflates a whole zlib stream,
/// or reports that the stream is not well-formed. The result depends
/// on the bytes alone.
#[verifier::external_body]
fn zlib_decompress_raw(data: &[u8]) -> (r: Option<Vec<u8>>)
    ensures
        r is Some <==> zlib_inflate(data@) is Some,
        r matches Some(v) ==> zlib_inflate(data@) == Some(v@),
{
    let decoder = flate2::write::ZlibDecoder::new(Vec::new());
    let mut decoder = decoder;
    match decoder.write_all(data) {
        Ok(()) => match decoder.finish() {
            Ok(v) => Some(v),
            Err(_) => None,
        },
        Err(_) => None,
    }
}

/// Outcome of the decompression stage: a declared length, then a
/// zlib stream that must inflate to exactly that many bytes (and to
/// a buffer whose bit positions fit a `usize`).
pub open spec fn s_decompress(data: Seq<u8>) -> Result<Seq<u8>, Error> {
    match s_load_le(data, 0, 4) {
        Err(e) => Err(e),
        Ok((size, p1)) => if size > usize::MAX as int / 8 {
            Err(Error::CompressionSize)
        } else {
            match zlib_inflate(data.subrange(4, data.len() as int)) {
                None => Err(Error::CompressionSize),
                Some(out) => if out.len() == size {
                    Ok(out)
                } else {
                    Err(Error::CompressionSize)
                },
            }
        },
    }
}

/// Outcome of feeding raw bytes: the buffer the walk will read, the
/// position it starts at, and the serializer flags in force.
pub open spec fn s_feed(data: Seq<u8>, flags: u32, manual: bool) -> Result<
    (Seq<u8>, int, u32),
    Error,
> {
    if manual {
        match s_decompress(data) {
            Err(e) => Err(e),
            Ok(body) => if flags_contain(flags, STATEFUL_FLAGS) {
                match s_load_le(body, 0, 4) {
                    Err(e) => Err(e),
                    Ok((f, p)) => Ok((body, p, (f as u32) & SERIALIZER_FLAG_BITS)),
                }
            } else {
                Ok((body, 0, flags))
            },
        }
    } else {
        match (if flags_contain(flags, STATEFUL_FLAGS) {
            match s_load_le(data, 0, 4) {
                Err(e) => Err(e),
                Ok((f, p)) => Ok(((f as u32) & SERIALIZER_FLAG_BITS, p)),
            }
        } else {
            Ok((flags, 0int))
        }) {
            Err(e) => Err(e),
            Ok((flags2, p1)) => if flags_contain(flags2, WITH_COMPRESSION) {
                match s_load_le(data, p1, 1) {
                    Err(e) => Err(e),
                    Ok((marker, p2)) => if marker != 0 {
                        match s_decompress(data.subrange(p2 / 8, data.len() as int)) {
                            Err(e) => Err(e),
                            Ok(body) => Ok((body, 0, flags2)),
                        }
                    } else {
                        Ok((data, p2, flags2))
                    },
                }
            } else {
                Ok((data, p1, flags2))
            },
        }
    }
}


/// Exhaustive-mode accounting: a successful walk consumes exactly
/// the declared object size — the property sizes sum to it.
pub proof fn lemma_props_ex_consumes<T: TypeTag>(
    cx: SCtx,
    td: TypeDefM,
    pos: int,
    size: nat,
    d: nat,
    acc: Map<Seq<char>, MValue>,
)
    requires
        in_bounds(cx.data, pos),
    ensures
        match s_props_ex::<T>(cx, td, pos, size, d, acc) {
            Ok((_, p1)) => s_len(cx.data, pos) - s_len(cx.data, p1) == size,
            Err(_) => true,
        },
    decreases d, 8int, size,
{
    if size > 0 {
        lemma_align8_bounds(pos, cx.data.len() as int);
        match s_load_le(cx.data, pos, 4) {
            Err(_) => {},
            Ok((psize, p1)) => {
                lemma_align8_bounds(p1, cx.data.len() as int);
                match s_load_le(cx.data, p1, 4) {
                    Err(_) => {},
                    Ok((phash, p2)) => {
                        match find_prop(td.properties, phash as u32) {
                            None => {},
                            Some(p) => {
                                lemma_prop_mono::<T>(cx, p, p2, d);
                                match s_prop::<T>(cx, p, p2, d) {
                                    Err(_) => {},
                                    Ok((v, p3)) => {
                                        let actual = s_len(cx.data, pos) - s_len(cx.data, p3);
                                        if actual == psize && psize <= size && psize > 0 {
                                            lemma_props_ex_consumes::<T>(
                                                cx,
                                                td,
                                                p3,
                                                (size - psize) as nat,
                                                d,
                                                acc.insert(p.name, v),
                                            );
                                        }
                                    },
                                }
                            },
                        }
                    },
                }
            },
        }
    }
}

/// A decoded sequence holds exactly as many items as its length
/// prefix announced.
pub proof fn lemma_items_count<T: TypeTag>(
    cx: SCtx,
    p: PropM,
    pos: int,
    n: nat,
    dd: nat,
    acc: Seq<MValue>,
)
    ensures
        match s_items::<T>(cx, p, pos, n, dd, acc) {
            Ok((items, _)) => items.len() == acc.len() + n,
            Err(_) => true,
        },
    decreases dd, 7int, n,
{
    if n > 0 {
        match s_data::<T>(cx, p, pos, dd) {
            Ok((v, p1)) => {
                lemma_items_count::<T>(cx, p, p1, (n - 1) as nat, dd, acc.push(v));
            },
            Err(_) => {},
        }
    }
}

/// A decoded list carries exactly as many items as its length
/// prefix announced.
pub proof fn lemma_list_count<T: TypeTag>(cx: SCtx, p: PropM, pos: int, d: nat)
    ensures
        match s_list::<T>(cx, p, pos, d) {
            Ok((v, _)) => match s_len_prefix(cx.data, cx.flags, pos, 4) {
                Ok((n, _)) => v matches MValue::List(items) && items.len() == n,
                Err(_) => false,
            },
            Err(_) => true,
        },
{
    match s_len_prefix(cx.data, cx.flags, pos, 4) {
        Ok((n, p1)) => {
            if d > 1 {
                lemma_items_count::<T>(cx, p, p1, n as nat, (d - 1) as nat, Seq::empty());
            }
        },
        Err(_) => {},
    }
}

/// A decoded byte string holds exactly as many bytes as its length
/// prefix announced.
pub proof fn lemma_str_count(data: Seq<u8>, flags: u32, pos: int)
    requires
        in_bounds(data, pos),
    ensures
        match s_read_str(data, flags, pos) {
            Ok((bytes, _)) => match s_len_prefix(data, flags, pos, 2) {
                Ok((n, _)) => bytes.len() == n,
                Err(_) => false,
            },
            Err(_) => true,
        },
{
    lemma_len_prefix_mono(data, flags, pos, 2);
    match s_len_prefix(data, flags, pos, 2) {
        Ok((n, p1)) => {
            lemma_align8_bounds(p1, data.len() as int);
            let bp = align8(p1) / 8;
            if bp + n <= data.len() {
                assert(data.subrange(bp, bp + n as int).len() == n);
            }
        },
        Err(_) => {},
    }
}

/// A decoded wide string holds exactly as many code units as its
/// length prefix announced.
pub proof fn lemma_wstr_count(data: Seq<u8>, flags: u32, pos: int)
    ensures
        match s_read_wstr(data, flags, pos) {
            Ok((units, _)) => match s_len_prefix(data, flags, pos, 2) {
                Ok((n, _)) => units.len() == n,
                Err(_) => false,
            },
            Err(_) => true,
        },
{
    match s_len_prefix(data, flags, pos, 2) {
        Ok((n, p1)) => {
            lemma_wstr_items_count(data, p1, n as nat, Seq::empty());
        },
        Err(_) => {},
    }
}

pub proof fn lemma_wstr_items_count(data: Seq<u8>, pos: int, n: nat, acc: Seq<u16>)
    ensures
        match s_wstr_items(data, pos, n, acc) {
            Ok((units, _)) => units.len() == acc.len() + n,
            Err(_) => true,
        },
    decreases n,
{
    if n > 0 {
        match s_load_le(data, pos, 2) {
            Ok((v, p1)) => {
                lemma_wstr_items_count(data, p1, (n - 1) as nat, acc.push(v as u16));
            },
            Err(_) => {},
        }
    }
}

/// The bit pattern of a signed value in `n` bits.
pub open spec fn signed_to_bits(x: int, n: nat) -> u64 {
    (x % (pow2(n) as int)) as u64
}

/// Signed bit-integers of width `n` round-trip over the whole range
/// `[-2^(n-1), 2^(n-1) - 1]`.
pub proof fn lemma_signed_bits_roundtrip(x: int, n: nat)
    requires
        1 <= n <= 63,
        -(pow2((n - 1) as nat) as int) <= x < pow2((n - 1) as nat),
    ensures
        sign_extend(signed_to_bits(x, n), n) == x,
{
    lemma_pow2_adds((n - 1) as nat, 1);
    lemma2_to64();
    lemma2_to64_rest();
    let m = pow2(n) as int;
    if x >= 0 {
        assert(x % m == x) by (nonlinear_arith)
            requires
                0 <= x < m,
        ;
    } else {
        assert(x % m == x + m) by (nonlinear_arith)
            requires
                -m <= x < 0,
                m > 0,
        ;
    }
}

/// Re-encoding a sign-extended value gives back the same bits.
pub proof fn lemma_bits_signed_roundtrip(v: u64, n: nat)
    requires
        1 <= n <= 63,
        v < pow2(n),
    ensures
        signed_to_bits(sign_extend(v, n) as int, n) == v,
{
    lemma_pow2_adds((n - 1) as nat, 1);
    lemma2_to64();
    lemma2_to64_rest();
    let m = pow2(n) as int;
    if (v as nat) < pow2((n - 1) as nat) {
        assert((v as int) % m == v as int) by (nonlinear_arith)
            requires
                0 <= v < m,
        ;
    } else {
        assert((v as int - m) % m == v as int - m + m) by (nonlinear_arith)
            requires
                -m <= v as int - m < 0,
                m > 0,
        ;
    }
}

/// Unsigned bit-integers of width `n` round-trip over `[0, 2^n - 1]`:
/// reading `n` bits that encode `v` yields `v` itself.
pub proof fn lemma_unsigned_bits_roundtrip(data: Seq<u8>, pos: int, n: nat, v: u64)
    requires
        n <= 64,
        0 <= pos,
        pos + n <= 8 * data.len(),
        bits_nat(data, pos, n) == v,
    ensures
        s_read_bits(data, pos, n) == Ok::<_, Error>((v, pos + n)),
{
    lemma_bits_nat_bound(data, pos, n);
}


/// A simple leaf is never an object or a list.
pub proof fn lemma_simple_shape(cx: SCtx, ty: Seq<char>, pos: int)
    ensures
        match s_simple(cx, ty, pos) {
            Ok((v, _)) => !(v matches MValue::Object { .. }) && !(v matches MValue::List(_)),
            Err(_) => true,
        },
{
}

/// Recursion accounting: a value decoded with the given budget nests
/// objects and lists no deeper than that budget.
pub proof fn lemma_deserialize_depth<T: TypeTag>(cx: SCtx, pos: int, budget: nat)
    ensures
        match s_deserialize::<T>(cx, pos, budget) {
            Ok((v, _)) => depth_le(v, budget),
            Err(_) => true,
        },
    decreases budget, 0int, 0int,
{
    if budget > 1 {
        let d = (budget - 1) as nat;
        match T::identity_spec(cx.data, pos, cx.types) {
            Err(_) => {},
            Ok((None, p1)) => {},
            Ok((Some(td), p1)) => {
                if cx.shallow {
                    lemma_props_shallow_depth::<T>(cx, td, 0, p1, d, Map::empty());
                } else {
                    match s_load_le(cx.data, p1, 4) {
                        Err(_) => {},
                        Ok((osize, p2)) => {
                            lemma_props_ex_depth::<T>(cx, td, p2, osize as nat, d, Map::empty());
                        },
                    }
                }
            },
        }
    }
}

pub proof fn lemma_props_shallow_depth<T: TypeTag>(
    cx: SCtx,
    td: TypeDefM,
    i: nat,
    pos: int,
    d: nat,
    acc: Map<Seq<char>, MValue>,
)
    requires
        forall|k: Seq<char>| acc.dom().contains(k) ==> depth_le(#[trigger] acc[k], d),
    ensures
        match s_props_shallow::<T>(cx, td, i, pos, d, acc) {
            Ok((m, _)) => forall|k: Seq<char>|
                m.dom().contains(k) ==> depth_le(#[trigger] m[k], d),
            Err(_) => true,
        },
    decreases d, 8int, td.properties.len() - i,
{
    if i < td.properties.len() {
        let p = td.properties[i as int];
        if flags_contain(p.flags, cx.mask) && !flags_contain(p.flags, DEPRECATED) {
            lemma_prop_depth::<T>(cx, p, pos, d);
            match s_prop::<T>(cx, p, pos, d) {
                Ok((v, p1)) => {
                    lemma_props_shallow_depth::<T>(cx, td, i + 1, p1, d, acc.insert(p.name, v));
                },
                Err(_) => {},
            }
        } else {
            lemma_props_shallow_depth::<T>(cx, td, i + 1, pos, d, acc);
        }
    }
}

pub proof fn lemma_props_ex_depth<T: TypeTag>(
    cx: SCtx,
    td: TypeDefM,
    pos: int,
    size: nat,
    d: nat,
    acc: Map<Seq<char>, MValue>,
)
    requires
        forall|k: Seq<char>| acc.dom().contains(k) ==> depth_le(#[trigger] acc[k], d),
    ensures
        match s_props_ex::<T>(cx, td, pos, size, d, acc) {
            Ok((m, _)) => forall|k: Seq<char>|
                m.dom().contains(k) ==> depth_le(#[trigger] m[k], d),
            Err(_) => true,
        },
    decreases d, 8int, size,
{
    if size > 0 {
        match s_load_le(cx.data, pos, 4) {
            Err(_) => {},
            Ok((psize, p1)) => {
                match s_load_le(cx.data, p1, 4) {
                    Err(_) => {},
                    Ok((phash, p2)) => {
                        match find_prop(td.properties, phash as u32) {
                            None => {},
                            Some(p) => {
                                lemma_prop_depth::<T>(cx, p, p2, d);
                                match s_prop::<T>(cx, p, p2, d) {
                                    Err(_) => {},
                                    Ok((v, p3)) => {
                                        let actual = s_len(cx.data, pos) - s_len(cx.data, p3);
                                        if actual == psize && psize <= size && psize > 0 {
                                            lemma_props_ex_depth::<T>(
                                                cx,
                                                td,
                                                p3,
                                                (size - psize) as nat,
                                                d,
                                                acc.insert(p.name, v),
                                            );
                                        }
                                    },
                                }
                            },
                        }
                    },
                }
            },
        }
    }
}

pub proof fn lemma_prop_depth<T: TypeTag>(cx: SCtx, p: PropM, pos: int, d: nat)
    ensures
        match s_prop::<T>(cx, p, pos, d) {
            Ok((v, _)) => depth_le(v, d),
            Err(_) => true,
        },
    decreases d, 7int, 1int,
{
    if flags_contain(p.flags, DELTA_ENCODE) {
        match s_read_bit(cx.data, pos) {
            Err(_) => {},
            Ok((present, p1)) => {
                if present {
                    lemma_prop_value_depth::<T>(cx, p, p1, d);
                }
            },
        }
    } else {
        lemma_prop_value_depth::<T>(cx, p, pos, d);
    }
}

#[verifier::rlimit(100)]
pub proof fn lemma_prop_value_depth<T: TypeTag>(cx: SCtx, p: PropM, pos: int, d: nat)
    ensures
        match s_prop_value::<T>(cx, p, pos, d) {
            Ok((v, _)) => depth_le(v, d),
            Err(_) => true,
        },
    decreases d, 7int, 0int,
{
    if p.dynamic {
        lemma_list_depth::<T>(cx, p, pos, d);
    } else {
        lemma_data_depth::<T>(cx, p, pos, d);
    }
}

#[verifier::rlimit(100)]
pub proof fn lemma_list_depth<T: TypeTag>(cx: SCtx, p: PropM, pos: int, d: nat)
    ensures
        match s_list::<T>(cx, p, pos, d) {
            Ok((v, _)) => depth_le(v, d),
            Err(_) => true,
        },
    decreases d, 6int, 0int,
{
    match s_len_prefix(cx.data, cx.flags, pos, 4) {
        Err(_) => {},
        Ok((n, p1)) => {
            if d > 1 {
                lemma_items_depth::<T>(cx, p, p1, n as nat, (d - 1) as nat, Seq::empty());
            }
        },
    }
}

#[verifier::rlimit(100)]
pub proof fn lemma_items_depth<T: TypeTag>(
    cx: SCtx,
    p: PropM,
    pos: int,
    n: nat,
    dd: nat,
    acc: Seq<MValue>,
)
    requires
        forall|i: int| 0 <= i < acc.len() ==> depth_le(#[trigger] acc[i], dd),
    ensures
        match s_items::<T>(cx, p, pos, n, dd, acc) {
            Ok((items, _)) => forall|i: int|
                0 <= i < items.len() ==> depth_le(#[trigger] items[i], dd),
            Err(_) => true,
        },
    decreases dd, 7int, n,
{
    if n > 0 {
        lemma_data_depth::<T>(cx, p, pos, dd);
        match s_data::<T>(cx, p, pos, dd) {
            Ok((v, p1)) => {
                lemma_items_depth::<T>(cx, p, p1, (n - 1) as nat, dd, acc.push(v));
            },
            Err(_) => {},
        }
    }
}

#[verifier::rlimit(100)]
pub proof fn lemma_data_depth<T: TypeTag>(cx: SCtx, p: PropM, pos: int, d: nat)
    ensures
        match s_data::<T>(cx, p, pos, d) {
            Ok((v, _)) => depth_le(v, d),
            Err(_) => true,
        },
    decreases d, 5int, 0int,
{
    if flags_intersect(p.flags, BITS | ENUM) {
    } else if is_simple_ty(p.ty) {
        lemma_simple_shape(cx, p.ty, pos);
    } else {
        lemma_deserialize_depth::<T>(cx, pos, d);
    }
}

/// A configurable deserializer for the ObjectProperty binary format,
/// producing [`crate::value::Value`]s.
pub struct Deserializer<'de, T> {
    pub reader: BitReader,
    pub options: DeserializerOptions,
    pub types: &'de TypeList,
    pub _t: core::marker::PhantomData<T>,
}

impl<'de, T> Deserializer<'de, T> {
    /// The wire-interpretation context the deserializer is in.
    pub open spec fn sctx(self) -> SCtx {
        SCtx {
            data: self.reader.data@,
            flags: self.options.flags.bits,
            mask: self.options.property_mask.bits,
            shallow: self.options.shallow,
            types: self.types@,
        }
    }

    pub open spec fn wf(self) -> bool {
        self.reader.wf()
    }

    /// The configuration and buffer agree with `other`'s; only the
    /// cursor may differ.
    pub open spec fn same_ctx(self, other: Self) -> bool {
        &&& self.options == other.options
        &&& self.types == other.types
        &&& self.reader.data@ == other.reader.data@
    }

    /// Creates a new deserializer with its configuration. No data is
    /// loaded yet; `feed_data` should be called next.
    pub fn new(options: DeserializerOptions, types: &'de TypeList) -> (r: Self)
        ensures
            r.wf(),
            r.options == options,
            r.types == types,
            r.reader.data@ == Seq::<u8>::empty(),
            r.reader.pos() == 0,
    {
        Deserializer {
            reader: BitReader::new(Vec::new()),
            options,
            types,
            _t: core::marker::PhantomData,
        }
    }

    /// Runs the decompression stage over `data`.
    fn decompress_data(data: &[u8]) -> (r: Result<Vec<u8>, Error>)
        requires
            8 * data@.len() <= usize::MAX,
        ensures
            match r {
                Ok(v) => s_decompress(data@) == Ok::<_, Error>(v@) && 8 * v@.len() <= usize::MAX,
                Err(e) => s_decompress(data@) == Err::<Seq<u8>, _>(e),
            },
    {
        let mut header: BitReader = BitReader::new(slice_to_vec(data));
        let size64: u64 = match header.load_le(4) {
            Ok(v) => v,
            Err(e) => {
                return Err(e);
            },
        };
        if size64 > (usize::MAX / 8) as u64 {
            return Err(Error::CompressionSize);
        }
        let remaining: usize = header.len();
        let rest: Vec<u8> = match header.read_bytes(remaining) {
            Ok(v) => v,
            Err(e) => {
                proof {
                    assert(false);
                }
                return Err(e);
            },
        };
        proof {
            lemma_align8_bounds(header.pos(), data@.len() as int);
            assert(rest@ =~= data@.subrange(4, data@.len() as int));
        }
        match zlib_decompress_raw(rest.as_slice()) {
            None => Err(Error::CompressionSize),
            Some(out) => {
                if out.len() != size64 as usize {
                    return Err(Error::CompressionSize);
                }
                proof {
                    assert(8 * out@.len() <= usize::MAX) by (nonlinear_arith)
                        requires
                            out@.len() <= usize::MAX as int / 8,
                    ;
                }
                Ok(out)
            },
        }
    }

    /// Feeds raw bytes: runs the optional decompression stage, takes
    /// in stateful flags when configured, and leaves the reader at
    /// the start of the body.
    #[verifier::rlimit(100)]
    pub fn feed_data(&mut self, data: &[u8]) -> (r: Result<(), Error>)
        requires
            old(self).wf(),
            8 * data@.len() <= usize::MAX,
        ensures
            final(self).wf(),
            final(self).types == old(self).types,
            final(self).options.property_mask == old(self).options.property_mask,
            final(self).options.shallow == old(self).options.shallow,
            final(self).options.manual_compression == old(self).options.manual_compression,
            final(self).options.recursion_limit == old(self).options.recursion_limit,
            match r {
                Ok(()) => s_feed(
                    data@,
                    old(self).options.flags.bits,
                    old(self).options.manual_compression,
                ) == Ok::<_, Error>(
                    (
                        final(self).reader.data@,
                        final(self).reader.pos(),
                        final(self).options.flags.bits,
                    ),
                ),
                Err(e) => s_feed(
                    data@,
                    old(self).options.flags.bits,
                    old(self).options.manual_compression,
                ) == Err::<(Seq<u8>, int, u32), _>(e),
            },
    {
        if self.options.manual_compression {
            let body: Vec<u8> = match Self::decompress_data(data) {
                Ok(v) => v,
                Err(e) => {
                    return Err(e);
                },
            };
            self.reader = BitReader::new(body);
            if self.options.flags.contains(STATEFUL_FLAGS) {
                let f: u32 = match self.deserialize_u32() {
                    Ok(v) => v,
                    Err(e) => {
                        return Err(e);
                    },
                };
                self.options.flags = SerializerFlags::from_bits_truncate(f);
            }
            Ok(())
        } else {
            self.reader = BitReader::new(slice_to_vec(data));
            if self.options.flags.contains(STATEFUL_FLAGS) {
                let f: u32 = match self.deserialize_u32() {
                    Ok(v) => v,
                    Err(e) => {
                        return Err(e);
                    },
                };
                self.options.flags = SerializerFlags::from_bits_truncate(f);
            }
            if self.options.flags.contains(WITH_COMPRESSION) {
                let marker: u64 = match self.reader.load_le(1) {
                    Ok(v) => v,
                    Err(e) => {
                        return Err(e);
                    },
                };
                if marker != 0 {
                    let remaining: usize = self.reader.len();
                    let ghost p2 = self.reader.pos();
                    let rest: Vec<u8> = match self.reader.read_bytes(remaining) {
                        Ok(v) => v,
                        Err(e) => {
                            proof {
                                lemma_align8_bounds(p2, data@.len() as int);
                                assert(false);
                            }
                            return Err(e);
                        },
                    };
                    proof {
                        lemma_align8_bounds(p2, data@.len() as int);
                        assert(rest@ =~= data@.subrange(align8(p2) / 8, data@.len() as int));
                        assert(align8(p2) == p2);
                    }
                    let body: Vec<u8> = match Self::decompress_data(rest.as_slice()) {
                        Ok(v) => v,
                        Err(e) => {
                            return Err(e);
                        },
                    };
                    self.reader = BitReader::new(body);
                }
            }
            Ok(())
        }
    }

    /// Reads a compact length: a marker bit, then 31 or 7 bits.
    pub fn read_compact_length_prefix(&mut self) -> (r: Result<u64, Error>)
        requires
            old(self).wf(),
        ensures
            final(self).wf(),
            final(self).same_ctx(*old(self)),
            match r {
                Ok(v) => s_compact_len(old(self).sctx().data, old(self).reader.pos()) == Ok::<
                    _,
                    Error,
                >((v, final(self).reader.pos())),
                Err(e) => s_compact_len(old(self).sctx().data, old(self).reader.pos()) == Err::<
                    (u64, int),
                    _,
                >(e),
            },
    {
        let is_large: bool = match self.reader.read_bit() {
            Ok(b) => b,
            Err(e) => {
                return Err(e);
            },
        };
        if is_large {
            self.reader.read_value_bits(31)
        } else {
            self.reader.read_value_bits(7)
        }
    }

    /// Reads a string length: realigns, then a compact prefix or a
    /// nominal u16.
    pub fn read_str_len(&mut self) -> (r: Result<u64, Error>)
        requires
            old(self).wf(),
        ensures
            final(self).wf(),
            final(self).same_ctx(*old(self)),
            match r {
                Ok(v) => s_len_prefix(
                    old(self).sctx().data,
                    old(self).sctx().flags,
                    old(self).reader.pos(),
                    2,
                ) == Ok::<_, Error>((v, final(self).reader.pos())),
                Err(e) => s_len_prefix(
                    old(self).sctx().data,
                    old(self).sctx().flags,
                    old(self).reader.pos(),
                    2,
                ) == Err::<(u64, int), _>(e),
            },
    {
        self.read_len_prefix(2)
    }

    /// Reads a sequence length: realigns, then a compact prefix or a
    /// nominal u32.
    pub fn read_seq_len(&mut self) -> (r: Result<u64, Error>)
        requires
            old(self).wf(),
        ensures
            final(self).wf(),
            final(self).same_ctx(*old(self)),
            match r {
                Ok(v) => s_len_prefix(
                    old(self).sctx().data,
                    old(self).sctx().flags,
                    old(self).reader.pos(),
                    4,
                ) == Ok::<_, Error>((v, final(self).reader.pos())),
                Err(e) => s_len_prefix(
                    old(self).sctx().data,
                    old(self).sctx().flags,
                    old(self).reader.pos(),
                    4,
                ) == Err::<(u64, int), _>(e),
            },
    {
        self.read_len_prefix(4)
    }

    fn read_len_prefix(&mut self, nominal: usize) -> (r: Result<u64, Error>)
        requires
            old(self).wf(),
            1 <= nominal <= 8,
        ensures
            final(self).wf(),
            final(self).same_ctx(*old(self)),
            match r {
                Ok(v) => s_len_prefix(
                    old(self).sctx().data,
                    old(self).sctx().flags,
                    old(self).reader.pos(),
                    nominal as nat,
                ) == Ok::<_, Error>((v, final(self).reader.pos())),
                Err(e) => s_len_prefix(
                    old(self).sctx().data,
                    old(self).sctx().flags,
                    old(self).reader.pos(),
                    nominal as nat,
                ) == Err::<(u64, int), _>(e),
            },
    {
        proof {
            lemma_align8_bounds(self.reader.pos(), self.reader.data@.len() as int);
        }
        if self.options.flags.contains(COMPACT_LENGTH_PREFIXES) {
            self.reader.realign_to_byte();
            self.read_compact_length_prefix()
        } else {
            self.reader.load_le(nominal)
        }
    }

    /// Reads a length-prefixed byte string.
    pub fn read_str(&mut self) -> (r: Result<Vec<u8>, Error>)
        requires
            old(self).wf(),
        ensures
            final(self).wf(),
            final(self).same_ctx(*old(self)),
            match r {
                Ok(v) => s_read_str(
                    old(self).sctx().data,
                    old(self).sctx().flags,
                    old(self).reader.pos(),
                ) == Ok::<_, Error>((v@, final(self).reader.pos())),
                Err(e) => s_read_str(
                    old(self).sctx().data,
                    old(self).sctx().flags,
                    old(self).reader.pos(),
                ) == Err::<(Seq<u8>, int), _>(e),
            },
    {
        let n: u64 = match self.read_str_len() {
            Ok(n) => n,
            Err(e) => {
                return Err(e);
            },
        };
        proof {
            lemma_align8_bounds(self.reader.pos(), self.reader.data@.len() as int);
        }
        let remaining: usize = self.reader.len();
        if n > remaining as u64 {
            return Err(Error::UnexpectedEof);
        }
        self.reader.read_bytes(n as usize)
    }

    /// Reads a length-prefixed wide string of u16 code units.
    #[verifier::loop_isolation(false)]
    pub fn read_wstr(&mut self) -> (r: Result<Vec<u16>, Error>)
        requires
            old(self).wf(),
        ensures
            final(self).wf(),
            final(self).same_ctx(*old(self)),
            match r {
                Ok(v) => s_read_wstr(
                    old(self).sctx().data,
                    old(self).sctx().flags,
                    old(self).reader.pos(),
                ) == Ok::<_, Error>((v@, final(self).reader.pos())),
                Err(e) => s_read_wstr(
                    old(self).sctx().data,
                    old(self).sctx().flags,
                    old(self).reader.pos(),
                ) == Err::<(Seq<u16>, int), _>(e),
            },
    {
        let n: u64 = match self.read_str_len() {
            Ok(n) => n,
            Err(e) => {
                return Err(e);
            },
        };
        let ghost data = self.reader.data@;
        let ghost p1 = self.reader.pos();
        let mut out: Vec<u16> = Vec::new();
        let mut k: u64 = 0;
        while k < n
            invariant
                self.wf(),
                self.reader.data@ == data,
                self.options == old(self).options,
                self.types == old(self).types,
                0 <= k <= n,
                s_wstr_items(data, p1, n as nat, Seq::empty()) == s_wstr_items(
                    data,
                    self.reader.pos(),
                    (n - k) as nat,
                    out@,
                ),
            decreases n - k,
        {
            let ghost pre = self.reader.pos();
            let v: u64 = match self.reader.load_le(2) {
                Ok(v) => v,
                Err(e) => {
                    proof {
                        assert(s_load_le(data, pre, 2) == Err::<(u64, int), _>(e));
                        assert(s_wstr_items(data, pre, (n - k) as nat, out@) == Err::<
                            (Seq<u16>, int),
                            _,
                        >(e));
                    }
                    return Err(e);
                },
            };
            proof {
                assert(s_load_le(data, pre, 2) == Ok::<_, Error>((v, self.reader.pos())));
                assert(s_wstr_items(data, pre, (n - k) as nat, out@) == s_wstr_items(
                    data,
                    self.reader.pos(),
                    (n - (k + 1)) as nat,
                    out@.push(v as u16),
                ));
            }
            out.push(v as u16);
            k = k + 1;
        }
        Ok(out)
    }

    /// Reads an `n`-bit unsigned bit-integer.
    pub fn deserialize_bits(&mut self, n: usize) -> (r: Result<u64, Error>)
        requires
            old(self).wf(),
            1 <= n <= 64,
        ensures
            final(self).wf(),
            final(self).same_ctx(*old(self)),
            match r {
                Ok(v) => s_read_bits(old(self).sctx().data, old(self).reader.pos(), n as nat)
                    == Ok::<_, Error>((v, final(self).reader.pos())),
                Err(e) => s_read_bits(old(self).sctx().data, old(self).reader.pos(), n as nat)
                    == Err::<(u64, int), _>(e),
            },
    {
        self.reader.read_value_bits(n)
    }

    /// Reads an `n`-bit signed bit-integer, sign-extending the top
    /// bit.
    pub fn deserialize_signed_bits(&mut self, n: usize) -> (r: Result<i64, Error>)
        requires
            old(self).wf(),
            1 <= n <= 63,
        ensures
            final(self).wf(),
            final(self).same_ctx(*old(self)),
            match r {
                Ok(v) => s_signed_bits(old(self).sctx().data, old(self).reader.pos(), n as nat)
                    == Ok::<_, Error>((v, final(self).reader.pos())),
                Err(e) => s_signed_bits(old(self).sctx().data, old(self).reader.pos(), n as nat)
                    == Err::<(i64, int), _>(e),
            },
    {
        let v: u64 = match self.reader.read_value_bits(n) {
            Ok(v) => v,
            Err(e) => {
                return Err(e);
            },
        };
        proof {
            lemma_bits_nat_bound(old(self).sctx().data, old(self).reader.pos(), n as nat);
            vstd::bits::lemma_u64_pow2_no_overflow(n as nat);
            vstd::bits::lemma_u64_shl_is_mul(1u64, n as u64);
            vstd::bits::lemma_u64_pow2_no_overflow((n - 1) as nat);
            vstd::bits::lemma_u64_shl_is_mul(1u64, (n - 1) as u64);
            lemma_pow2_adds((n - 1) as nat, 1);
            lemma2_to64();
        }
        let half: u64 = 1u64 << ((n - 1) as u64);
        if v < half {
            Ok(v as i64)
        } else {
            let pow2n: u64 = 1u64 << (n as u64);
            let neg: u64 = pow2n - v;
            Ok(-(neg as i64))
        }
    }

    /// Reads `k` successive little-endian values of `width` bytes.
    #[verifier::loop_isolation(false)]
    fn load_run(&mut self, width: usize, k: usize) -> (r: Result<Vec<u64>, Error>)
        requires
            old(self).wf(),
            1 <= width <= 8,
        ensures
            final(self).wf(),
            final(self).same_ctx(*old(self)),
            match r {
                Ok(v) => s_load_run(
                    old(self).sctx().data,
                    old(self).reader.pos(),
                    width as nat,
                    k as nat,
                    Seq::empty(),
                ) == Ok::<_, Error>((v@, final(self).reader.pos())) && v.len() == k,
                Err(e) => s_load_run(
                    old(self).sctx().data,
                    old(self).reader.pos(),
                    width as nat,
                    k as nat,
                    Seq::empty(),
                ) == Err::<(Seq<u64>, int), _>(e),
            },
    {
        let ghost data = self.reader.data@;
        let ghost p0 = self.reader.pos();
        let mut out: Vec<u64> = Vec::new();
        let mut i: usize = 0;
        while i < k
            invariant
                self.wf(),
                self.reader.data@ == data,
                self.options == old(self).options,
                self.types == old(self).types,
                0 <= i <= k,
                out.len() == i,
                s_load_run(data, p0, width as nat, k as nat, Seq::empty()) == s_load_run(
                    data,
                    self.reader.pos(),
                    width as nat,
                    (k - i) as nat,
                    out@,
                ),
            decreases k - i,
        {
            let ghost pre = self.reader.pos();
            let v: u64 = match self.reader.load_le(width) {
                Ok(v) => v,
                Err(e) => {
                    return Err(e);
                },
            };
            out.push(v);
            i = i + 1;
        }
        Ok(out)
    }

    /// Decodes one simple leaf by its textual type name, following
    /// the dispatch table of the format.
    pub fn deserialize_simple_data(&mut self, ty: &str) -> (r: Result<Value, Error>)
        requires
            old(self).wf(),
            is_simple_ty(ty@),
        ensures
            final(self).wf(),
            final(self).same_ctx(*old(self)),
            match r {
                Ok(v) => s_simple(old(self).sctx(), ty@, old(self).reader.pos()) == Ok::<
                    _,
                    Error,
                >((v.mval(), final(self).reader.pos())) && v.swf(),
                Err(e) => s_simple(old(self).sctx(), ty@, old(self).reader.pos()) == Err::<
                    (MValue, int),
                    _,
                >(e),
            },
        decreases ty@.len(), 3int,
    {
        if is_atomic_type(ty) {
            self.simple_atomic(ty)
        } else if str_starts_with(ty, "class Size") {
            let arg: &str = match extract_type_argument(ty) {
                Some(a) => a,
                None => {
                    proof {
                        assert(false);
                    }
                    return Err(Error::NotSimple);
                },
            };
            match self.simple_pair(arg) {
                Ok((v1, v2)) => Ok(Value::Size { wh: Box::new((v1, v2)) }),
                Err(e) => Err(e),
            }
        } else if str_starts_with(ty, "class Point") {
            let arg: &str = match extract_type_argument(ty) {
                Some(a) => a,
                None => {
                    proof {
                        assert(false);
                    }
                    return Err(Error::NotSimple);
                },
            };
            match self.simple_pair(arg) {
                Ok((v1, v2)) => Ok(Value::Point { xy: Box::new((v1, v2)) }),
                Err(e) => Err(e),
            }
        } else if str_starts_with(ty, "class Rect") {
            let arg: &str = match extract_type_argument(ty) {
                Some(a) => a,
                None => {
                    proof {
                        assert(false);
                    }
                    return Err(Error::NotSimple);
                },
            };
            match self.simple_quad(arg) {
                Ok((v1, v2, v3, v4)) => Ok(Value::Rect { inner: Box::new((v1, v2, v3, v4)) }),
                Err(e) => Err(e),
            }
        } else {
            proof {
                assert(false);
            }
            Err(Error::NotSimple)
        }
    }

    /// Decodes two successive simple leaves of one type.
    fn simple_pair(&mut self, arg: &str) -> (r: Result<(Value, Value), Error>)
        requires
            old(self).wf(),
            is_simple_ty(arg@),
        ensures
            final(self).wf(),
            final(self).same_ctx(*old(self)),
            match r {
                Ok(v) => s_simple_pair(old(self).sctx(), arg@, old(self).reader.pos()) == Ok::<
                    _,
                    Error,
                >(((v.0.mval(), v.1.mval()), final(self).reader.pos())) && v.0.swf() && v.1.swf(),
                Err(e) => s_simple_pair(old(self).sctx(), arg@, old(self).reader.pos()) == Err::<
                    ((MValue, MValue), int),
                    _,
                >(e),
            },
        decreases arg@.len(), 9int,
    {
        let v1: Value = match self.deserialize_simple_data(arg) {
            Ok(v) => v,
            Err(e) => {
                return Err(e);
            },
        };
        let v2: Value = match self.deserialize_simple_data(arg) {
            Ok(v) => v,
            Err(e) => {
                return Err(e);
            },
        };
        Ok((v1, v2))
    }

    /// Decodes four successive simple leaves of one type.
    fn simple_quad(&mut self, arg: &str) -> (r: Result<(Value, Value, Value, Value), Error>)
        requires
            old(self).wf(),
            is_simple_ty(arg@),
        ensures
            final(self).wf(),
            final(self).same_ctx(*old(self)),
            match r {
                Ok(v) => s_simple_quad(old(self).sctx(), arg@, old(self).reader.pos()) == Ok::<
                    _,
                    Error,
                >(((v.0.mval(), v.1.mval(), v.2.mval(), v.3.mval()), final(self).reader.pos()))
                    && v.0.swf() && v.1.swf() && v.2.swf() && v.3.swf(),
                Err(e) => s_simple_quad(old(self).sctx(), arg@, old(self).reader.pos()) == Err::<
                    ((MValue, MValue, MValue, MValue), int),
                    _,
                >(e),
            },
        decreases arg@.len(), 9int,
    {
        let v1: Value = match self.deserialize_simple_data(arg) {
            Ok(v) => v,
            Err(e) => {
                return Err(e);
            },
        };
        let v2: Value = match self.deserialize_simple_data(arg) {
            Ok(v) => v,
            Err(e) => {
                return Err(e);
            },
        };
        let v3: Value = match self.deserialize_simple_data(arg) {
            Ok(v) => v,
            Err(e) => {
                return Err(e);
            },
        };
        let v4: Value = match self.deserialize_simple_data(arg) {
            Ok(v) => v,
            Err(e) => {
                return Err(e);
            },
        };
        Ok((v1, v2, v3, v4))
    }

    /// Reads a little-endian `u32`, realigning first.
    pub fn deserialize_u32(&mut self) -> (r: Result<u32, Error>)
        requires
            old(self).wf(),
        ensures
            final(self).wf(),
            final(self).same_ctx(*old(self)),
            match r {
                Ok(v) => s_load_le(old(self).sctx().data, old(self).reader.pos(), 4) == Ok::<
                    _,
                    Error,
                >((v as u64, final(self).reader.pos())),
                Err(e) => s_load_le(old(self).sctx().data, old(self).reader.pos(), 4) == Err::<
                    (u64, int),
                    _,
                >(e),
            },
    {
        let raw: u64 = match self.reader.load_le(4) {
            Ok(v) => v,
            Err(e) => {
                return Err(e);
            },
        };
        proof {
            lemma_le_bytes_bound(old(self).sctx().data, align8(old(self).reader.pos()) / 8, 4);
            lemma2_to64();
        }
        Ok(raw as u32)
    }

    /// Reads one bit as a boolean.
    pub fn deserialize_bool(&mut self) -> (r: Result<bool, Error>)
        requires
            old(self).wf(),
        ensures
            final(self).wf(),
            final(self).same_ctx(*old(self)),
            match r {
                Ok(b) => s_read_bit(old(self).sctx().data, old(self).reader.pos()) == Ok::<
                    _,
                    Error,
                >((b, final(self).reader.pos())),
                Err(e) => s_read_bit(old(self).sctx().data, old(self).reader.pos()) == Err::<
                    (bool, int),
                    _,
                >(e),
            },
    {
        self.reader.read_bit()
    }

    /// Decodes an enum or bitflag property, either as a
    /// human-readable string or from its integer representation.
    #[verifier::loop_isolation(false)]
    #[verifier::rlimit(60)]
    pub fn deserialize_enum_variant(&mut self, property: &Property) -> (r: Result<Value, Error>)
        requires
            old(self).wf(),
        ensures
            final(self).wf(),
            final(self).same_ctx(*old(self)),
            match r {
                Ok(v) => s_enum(old(self).sctx(), property@, old(self).reader.pos()) == Ok::<
                    _,
                    Error,
                >((v.mval(), final(self).reader.pos())) && v.swf(),
                Err(e) => s_enum(old(self).sctx(), property@, old(self).reader.pos()) == Err::<
                    (MValue, int),
                    _,
                >(e),
            },
    {
        if self.options.flags.contains(HUMAN_READABLE_ENUMS) {
            let bytes: Vec<u8> = match self.read_str() {
                Ok(b) => b,
                Err(e) => {
                    return Err(e);
                },
            };
            let payload: String = match utf8_to_string(bytes.as_slice()) {
                Some(sv) => sv,
                None => {
                    return Err(Error::InvalidUtf8);
                },
            };
            if property.flags.contains(ENUM) {
                let mut out: String = property.ty.clone();
                out.append("::");
                out.append(payload.as_str());
                Ok(Value::Enum(out))
            } else {
                Ok(Value::Enum(payload))
            }
        } else {
            let v: u32 = match self.deserialize_u32() {
                Ok(v) => v,
                Err(e) => {
                    return Err(e);
                },
            };
            let ghost opts = property@.enum_options;
            if property.flags.contains(ENUM) {
                match find_variant(&property.enum_options, v) {
                    Some(name) => {
                        let mut out: String = property.ty.clone();
                        out.append("::");
                        out.append(name.as_str());
                        Ok(Value::Enum(out))
                    },
                    None => Err(Error::UnknownEnumVariant),
                }
            } else {
                let mut out: String = String::new();
                let mut first: bool = true;
                let ghost names: Seq<Seq<char>> = Seq::empty();
                let mut names_g: Ghost<Seq<Seq<char>>> = Ghost(names);
                let mut b: u32 = 0;
                while b < 32
                    invariant
                        0 <= b <= 32,
                        s_bit_names(opts, v, b as nat) == Ok::<_, Error>(names_g@),
                        out@ == join_names(names_g@),
                        first == (names_g@.len() == 0),
                    decreases 32 - b,
                {
                    if v & (1u32 << b) != 0 {
                        match find_variant(&property.enum_options, 1u32 << b) {
                            Some(name) => {
                                proof {
                                    if names_g@.len() > 0 {
                                        assert(names_g@.push(name@).drop_last() =~= names_g@);
                                    } else {
                                        assert(names_g@.push(name@) =~= seq![name@]);
                                    }
                                }
                                if !first {
                                    out.append(" | ");
                                }
                                out.append(name.as_str());
                                first = false;
                                proof {
                                    names_g@ = names_g@.push(name@);
                                }
                            },
                            None => {
                                proof {
                                    lemma_bit_names_err(opts, v, (b + 1) as nat, 32);
                                }
                                return Err(Error::UnknownEnumVariant);
                            },
                        }
                    }
                    b = b + 1;
                }
                Ok(Value::Enum(out))
            }
        }
    }

    /// Decodes one non-parametric simple leaf.
    fn simple_atomic(&mut self, ty: &str) -> (r: Result<Value, Error>)
        requires
            old(self).wf(),
            is_atomic_ty(ty@),
        ensures
            final(self).wf(),
            final(self).same_ctx(*old(self)),
            match r {
                Ok(v) => s_simple_atomic(old(self).sctx(), ty@, old(self).reader.pos()) == Ok::<
                    _,
                    Error,
                >((v.mval(), final(self).reader.pos())) && v.swf(),
                Err(e) => s_simple_atomic(old(self).sctx(), ty@, old(self).reader.pos()) == Err::<
                    (MValue, int),
                    _,
                >(e),
            },
    {
        if is_num_type(ty) {
            self.simple_num(ty)
        } else {
            self.simple_misc(ty)
        }
    }

    /// Decodes one numeric simple leaf.
    fn simple_num(&mut self, ty: &str) -> (r: Result<Value, Error>)
        requires
            old(self).wf(),
            is_num_name(ty@),
        ensures
            final(self).wf(),
            final(self).same_ctx(*old(self)),
            match r {
                Ok(v) => s_simple_num(old(self).sctx(), ty@, old(self).reader.pos()) == Ok::<
                    _,
                    Error,
                >((v.mval(), final(self).reader.pos())) && v.swf(),
                Err(e) => s_simple_num(old(self).sctx(), ty@, old(self).reader.pos()) == Err::<
                    (MValue, int),
                    _,
                >(e),
            },
    {
        if is_plain_num_type(ty) {
            self.simple_plain_num(ty)
        } else {
            self.simple_bit_num(ty)
        }
    }

    /// Decodes one plain integer or floating-point simple leaf.
    #[verifier::rlimit(100)]
    fn simple_plain_num(&mut self, ty: &str) -> (r: Result<Value, Error>)
        requires
            old(self).wf(),
            is_plain_num_name(ty@),
        ensures
            final(self).wf(),
            final(self).same_ctx(*old(self)),
            match r {
                Ok(v) => s_simple_plain_num(old(self).sctx(), ty@, old(self).reader.pos())
                    == Ok::<_, Error>((v.mval(), final(self).reader.pos())) && v.swf(),
                Err(e) => s_simple_plain_num(old(self).sctx(), ty@, old(self).reader.pos())
                    == Err::<(MValue, int), _>(e),
            },
    {
        if str_eq(ty, "bool") {
            match self.reader.read_bit() {
                Ok(b) => Ok(Value::Bool(b)),
                Err(e) => Err(e),
            }
        } else if str_eq(ty, "char") {
            match self.reader.load_le(1) {
                Ok(v) => {
                    proof {
                        lemma_le_bytes_bound(
                            old(self).sctx().data,
                            align8(old(self).reader.pos()) / 8,
                            1,
                        );
                        lemma2_to64();
                    }
                    let sv: i64 = if v < 128 {
                        v as i64
                    } else {
                        v as i64 - 256
                    };
                    Ok(Value::Signed(sv))
                },
                Err(e) => Err(e),
            }
        } else if str_eq(ty, "unsigned char") {
            match self.reader.load_le(1) {
                Ok(v) => Ok(Value::Unsigned(v)),
                Err(e) => Err(e),
            }
        } else if str_eq(ty, "short") {
            match self.reader.load_le(2) {
                Ok(v) => {
                    proof {
                        lemma_le_bytes_bound(
                            old(self).sctx().data,
                            align8(old(self).reader.pos()) / 8,
                            2,
                        );
                        lemma2_to64();
                    }
                    let sv: i64 = if v < 0x8000 {
                        v as i64
                    } else {
                        v as i64 - 0x10000
                    };
                    Ok(Value::Signed(sv))
                },
                Err(e) => Err(e),
            }
        } else if str_eq(ty, "unsigned short") || str_eq(ty, "wchar_t") {
            match self.reader.load_le(2) {
                Ok(v) => Ok(Value::Unsigned(v)),
                Err(e) => Err(e),
            }
        } else if str_eq(ty, "int") || str_eq(ty, "long") {
            match self.reader.load_le(4) {
                Ok(v) => {
                    proof {
                        lemma_le_bytes_bound(
                            old(self).sctx().data,
                            align8(old(self).reader.pos()) / 8,
                            4,
                        );
                        lemma2_to64();
                    }
                    let sv: i64 = if v < 0x80000000 {
                        v as i64
                    } else {
                        v as i64 - 0x100000000
                    };
                    Ok(Value::Signed(sv))
                },
                Err(e) => Err(e),
            }
        } else if str_eq(ty, "unsigned int") || str_eq(ty, "unsigned long") {
            match self.reader.load_le(4) {
                Ok(v) => Ok(Value::Unsigned(v)),
                Err(e) => Err(e),
            }
        } else if str_eq(ty, "float") {
            match self.reader.load_le(4) {
                Ok(v) => Ok(Value::Float32(v as u32)),
                Err(e) => Err(e),
            }
        } else if str_eq(ty, "double") {
            match self.reader.load_le(8) {
                Ok(v) => Ok(Value::Float64(v)),
                Err(e) => Err(e),
            }
        } else if str_eq(ty, "unsigned __int64") || str_eq(ty, "gid") || str_eq(ty, "union gid") {
            match self.reader.load_le(8) {
                Ok(v) => Ok(Value::Unsigned(v)),
                Err(e) => Err(e),
            }
        } else {
            proof {
                assert(false);
            }
            Err(Error::NotSimple)
        }
    }

    /// Decodes one bit-packed integer simple leaf.
    #[verifier::rlimit(100)]
    fn simple_bit_num(&mut self, ty: &str) -> (r: Result<Value, Error>)
        requires
            old(self).wf(),
            is_bit_num_name(ty@),
        ensures
            final(self).wf(),
            final(self).same_ctx(*old(self)),
            match r {
                Ok(v) => s_simple_bit_num(old(self).sctx(), ty@, old(self).reader.pos()) == Ok::<
                    _,
                    Error,
                >((v.mval(), final(self).reader.pos())) && v.swf(),
                Err(e) => s_simple_bit_num(old(self).sctx(), ty@, old(self).reader.pos()) == Err::<
                    (MValue, int),
                    _,
                >(e),
            },
    {
        if str_eq(ty, "bi2") || str_eq(ty, "bi3") || str_eq(ty, "bi4") || str_eq(ty, "bi5")
            || str_eq(ty, "bi6") || str_eq(ty, "bi7") || str_eq(ty, "s24") {
            let n: usize = if str_eq(ty, "s24") {
                24
            } else if str_eq(ty, "bi2") {
                2
            } else if str_eq(ty, "bi3") {
                3
            } else if str_eq(ty, "bi4") {
                4
            } else if str_eq(ty, "bi5") {
                5
            } else if str_eq(ty, "bi6") {
                6
            } else {
                7
            };
            match self.deserialize_signed_bits(n) {
                Ok(v) => Ok(Value::Signed(v)),
                Err(e) => Err(e),
            }
        } else if str_eq(ty, "bui2") || str_eq(ty, "bui3") || str_eq(ty, "bui4") || str_eq(
            ty,
            "bui5",
        ) || str_eq(ty, "bui6") || str_eq(ty, "bui7") || str_eq(ty, "u24") {
            let n: usize = if str_eq(ty, "u24") {
                24
            } else if str_eq(ty, "bui2") {
                2
            } else if str_eq(ty, "bui3") {
                3
            } else if str_eq(ty, "bui4") {
                4
            } else if str_eq(ty, "bui5") {
                5
            } else if str_eq(ty, "bui6") {
                6
            } else {
                7
            };
            match self.deserialize_bits(n) {
                Ok(v) => Ok(Value::Unsigned(v)),
                Err(e) => Err(e),
            }
        } else {
            proof {
                assert(false);
            }
            Err(Error::NotSimple)
        }
    }


    /// Decodes one string or fixed-geometry simple leaf.
    #[verifier::rlimit(100)]
    fn simple_misc(&mut self, ty: &str) -> (r: Result<Value, Error>)
        requires
            old(self).wf(),
            is_misc_name(ty@),
        ensures
            final(self).wf(),
            final(self).same_ctx(*old(self)),
            match r {
                Ok(v) => s_simple_misc(old(self).sctx(), ty@, old(self).reader.pos()) == Ok::<
                    _,
                    Error,
                >((v.mval(), final(self).reader.pos())) && v.swf(),
                Err(e) => s_simple_misc(old(self).sctx(), ty@, old(self).reader.pos()) == Err::<
                    (MValue, int),
                    _,
                >(e),
            },
    {
        if str_eq(ty, "std::string") || str_eq(ty, "char*") {
            match self.read_str() {
                Ok(b) => Ok(Value::String(b)),
                Err(e) => Err(e),
            }
        } else if str_eq(ty, "std::wstring") || str_eq(ty, "wchar_t*") {
            match self.read_wstr() {
                Ok(w) => Ok(Value::WString(w)),
                Err(e) => Err(e),
            }
        } else if str_eq(ty, "class Color") {
            match self.load_run(1, 4) {
                Ok(v) => Ok(
                    Value::Color {
                        b: v[0] as u8,
                        g: v[1] as u8,
                        r: v[2] as u8,
                        a: v[3] as u8,
                    },
                ),
                Err(e) => Err(e),
            }
        } else if str_eq(ty, "class Vector3D") {
            match self.load_run(4, 3) {
                Ok(v) => Ok(Value::Vec3 { x: v[0] as u32, y: v[1] as u32, z: v[2] as u32 }),
                Err(e) => Err(e),
            }
        } else if str_eq(ty, "class Quaternion") {
            match self.load_run(4, 4) {
                Ok(v) => Ok(
                    Value::Quat {
                        x: v[0] as u32,
                        y: v[1] as u32,
                        z: v[2] as u32,
                        w: v[3] as u32,
                    },
                ),
                Err(e) => Err(e),
            }
        } else if str_eq(ty, "class Euler") {
            match self.load_run(4, 3) {
                Ok(v) => Ok(
                    Value::Euler { pitch: v[0] as u32, roll: v[1] as u32, yaw: v[2] as u32 },
                ),
                Err(e) => Err(e),
            }
        } else if str_eq(ty, "class Matrix3x3") {
            match self.load_run(4, 9) {
                Ok(v) => Ok(
                    Value::Mat3x3 {
                        i: (v[0] as u32, v[1] as u32, v[2] as u32),
                        j: (v[3] as u32, v[4] as u32, v[5] as u32),
                        k: (v[6] as u32, v[7] as u32, v[8] as u32),
                    },
                ),
                Err(e) => Err(e),
            }
        } else {
            proof {
                assert(false);
            }
            Err(Error::NotSimple)
        }
    }
}



impl<'de, T: TypeTag> Deserializer<'de, T> {
    /// Deserializes an object value from previously loaded data.
    pub fn deserialize(&mut self) -> (r: Result<Value, Error>)
        requires
            old(self).wf(),
        ensures
            final(self).wf(),
            final(self).same_ctx(*old(self)),
            match r {
                Ok(v) => s_deserialize::<T>(
                    old(self).sctx(),
                    old(self).reader.pos(),
                    old(self).options.recursion_limit as nat,
                ) == Ok::<_, Error>((v.mval(), final(self).reader.pos())) && v.swf(),
                Err(e) => s_deserialize::<T>(
                    old(self).sctx(),
                    old(self).reader.pos(),
                    old(self).options.recursion_limit as nat,
                ) == Err::<(MValue, int), _>(e),
            },
    {
        let limit: u8 = self.options.recursion_limit;
        self.deserialize_limited(limit)
    }

    fn deserialize_limited(&mut self, limit: u8) -> (r: Result<Value, Error>)
        requires
            old(self).wf(),
        ensures
            final(self).wf(),
            final(self).same_ctx(*old(self)),
            match r {
                Ok(v) => s_deserialize::<T>(old(self).sctx(), old(self).reader.pos(), limit as nat)
                    == Ok::<_, Error>((v.mval(), final(self).reader.pos())) && v.swf(),
                Err(e) => s_deserialize::<T>(
                    old(self).sctx(),
                    old(self).reader.pos(),
                    limit as nat,
                ) == Err::<(MValue, int), _>(e),
            },
        decreases limit as int, 0int, 0int,
    {
        if limit <= 1 {
            return Err(Error::RecursionLimit);
        }
        let d: u8 = limit - 1;
        let td: &TypeDef = match T::object_identity(&mut self.reader, self.types) {
            Ok(Some(td)) => td,
            Ok(None) => {
                return Ok(Value::Empty);
            },
            Err(e) => {
                return Err(e);
            },
        };
        let object_size: u32 = if self.options.shallow {
            0
        } else {
            match self.deserialize_u32() {
                Ok(v) => v,
                Err(e) => {
                    return Err(e);
                },
            }
        };
        let members: Vec<(String, Value)> = match self.deserialize_properties(
            object_size,
            td,
            d,
        ) {
            Ok(m) => m,
            Err(e) => {
                return Err(e);
            },
        };
        Ok(Value::Object(Object { name: td.name.clone(), inner: members }))
    }

    /// Walks the properties of one object, in shallow or exhaustive
    /// mode, producing its member vector sorted by name.
    #[verifier::loop_isolation(false)]
    #[verifier::rlimit(100)]
    fn deserialize_properties(&mut self, object_size: u32, type_def: &TypeDef, d: u8) -> (r:
        Result<Vec<(String, Value)>, Error>)
        requires
            old(self).wf(),
        ensures
            final(self).wf(),
            final(self).same_ctx(*old(self)),
            ({
                let outcome = if old(self).options.shallow {
                    s_props_shallow::<T>(
                        old(self).sctx(),
                        type_def@,
                        0,
                        old(self).reader.pos(),
                        d as nat,
                        Map::empty(),
                    )
                } else {
                    s_props_ex::<T>(
                        old(self).sctx(),
                        type_def@,
                        old(self).reader.pos(),
                        object_size as nat,
                        d as nat,
                        Map::empty(),
                    )
                };
                match r {
                    Ok(m) => outcome == Ok::<_, Error>(
                        (pairs_map(m@), final(self).reader.pos()),
                    ) && keys_sorted(m@) && pairs_swf(m@),
                    Err(e) => outcome == Err::<(Map<Seq<char>, MValue>, int), _>(e),
                }
            }),
        decreases d as int, 8int, 0int,
    {
        let ghost cx = self.sctx();
        let ghost pos0 = self.reader.pos();
        let mut members: Vec<(String, Value)> = Vec::new();
        proof {
            assert(pairs_map(members@) =~= Map::<Seq<char>, MValue>::empty());
        }
        if self.options.shallow {
            let mut i: usize = 0;
            while i < type_def.properties.len()
                invariant
                    self.wf(),
                    self.same_ctx(*old(self)),
                    0 <= i <= type_def.properties@.len(),
                    keys_sorted(members@),
                    pairs_swf(members@),
                    s_props_shallow::<T>(cx, type_def@, 0, pos0, d as nat, Map::empty())
                        == s_props_shallow::<T>(
                        cx,
                        type_def@,
                        i as nat,
                        self.reader.pos(),
                        d as nat,
                        pairs_map(members@),
                    ),
                decreases type_def.properties@.len() - i,
            {
                let property: &Property = &type_def.properties[i];
                proof {
                    assert(type_def@.properties[i as int] == property@);
                }
                if property.flags.contains(self.options.property_mask.bits)
                    && !property.flags.contains(DEPRECATED) {
                    let value: Value = match self.deserialize_property(property, d) {
                        Ok(v) => v,
                        Err(e) => {
                            return Err(e);
                        },
                    };
                    insert_member(&mut members, property.name.clone(), value);
                }
                i = i + 1;
            }
            Ok(members)
        } else {
            let mut remaining: u32 = object_size;
            while remaining > 0
                invariant
                    self.wf(),
                    self.same_ctx(*old(self)),
                    keys_sorted(members@),
                    pairs_swf(members@),
                    s_props_ex::<T>(cx, type_def@, pos0, object_size as nat, d as nat, Map::empty())
                        == s_props_ex::<T>(
                        cx,
                        type_def@,
                        self.reader.pos(),
                        remaining as nat,
                        d as nat,
                        pairs_map(members@),
                    ),
                decreases remaining,
            {
                let ghost pos_a = self.reader.pos();
                let previous_buf_len: usize = self.reader.len();
                let property_size: u32 = match self.deserialize_u32() {
                    Ok(v) => v,
                    Err(e) => {
                        return Err(e);
                    },
                };
                let ghost pos_b = self.reader.pos();
                let property_hash: u32 = match self.deserialize_u32() {
                    Ok(v) => v,
                    Err(e) => {
                        return Err(e);
                    },
                };
                let ghost pos_c = self.reader.pos();
                let property: &Property = match find_property(&type_def.properties, property_hash)
                    {
                    Some(p) => p,
                    None => {
                        return Err(Error::UnknownProperty);
                    },
                };
                let value: Value = match self.deserialize_property(property, d) {
                    Ok(v) => v,
                    Err(e) => {
                        return Err(e);
                    },
                };
                proof {
                    lemma_s_len_after_load(cx.data, pos_a, 4);
                    lemma_s_len_after_load(cx.data, pos_b, 4);
                    lemma_prop_mono::<T>(cx, property@, pos_c, d as nat);
                    lemma_s_len_monotone(cx.data, pos_c, self.reader.pos());
                    lemma_s_len_monotone(cx.data, pos_a, pos_c);
                }
                let new_len: usize = self.reader.len();
                let actual_size: usize = previous_buf_len - new_len;
                if actual_size != property_size as usize {
                    return Err(Error::PropertySize);
                }
                if property_size > remaining {
                    return Err(Error::ObjectSizeMismatch);
                }
                insert_member(&mut members, property.name.clone(), value);
                remaining = remaining - property_size;
            }
            Ok(members)
        }
    }

    /// Decodes one property: the delta presence bit, then a dynamic
    /// sequence or a single datum.
    fn deserialize_property(&mut self, property: &Property, d: u8) -> (r: Result<Value, Error>)
        requires
            old(self).wf(),
        ensures
            final(self).wf(),
            final(self).same_ctx(*old(self)),
            match r {
                Ok(v) => s_prop::<T>(old(self).sctx(), property@, old(self).reader.pos(), d as nat)
                    == Ok::<_, Error>((v.mval(), final(self).reader.pos())) && v.swf(),
                Err(e) => s_prop::<T>(
                    old(self).sctx(),
                    property@,
                    old(self).reader.pos(),
                    d as nat,
                ) == Err::<(MValue, int), _>(e),
            },
        decreases d as int, 7int, 1int,
    {
        if property.flags.contains(DELTA_ENCODE) {
            let present: bool = match self.deserialize_bool() {
                Ok(b) => b,
                Err(e) => {
                    return Err(e);
                },
            };
            if !present {
                if self.options.flags.contains(FORBID_DELTA_ENCODE) {
                    return Err(Error::MissingDelta);
                }
                return Ok(Value::Empty);
            }
        }
        if property.dynamic {
            self.deserialize_list(property, d)
        } else {
            self.deserialize_data(property, d)
        }
    }

    /// Decodes a dynamic sequence: a length prefix, then that many
    /// data items one recursion level down.
    fn deserialize_list(&mut self, property: &Property, d: u8) -> (r: Result<Value, Error>)
        requires
            old(self).wf(),
        ensures
            final(self).wf(),
            final(self).same_ctx(*old(self)),
            match r {
                Ok(v) => s_list::<T>(old(self).sctx(), property@, old(self).reader.pos(), d as nat)
                    == Ok::<_, Error>((v.mval(), final(self).reader.pos())) && v.swf(),
                Err(e) => s_list::<T>(
                    old(self).sctx(),
                    property@,
                    old(self).reader.pos(),
                    d as nat,
                ) == Err::<(MValue, int), _>(e),
            },
        decreases d as int, 6int, 0int,
    {
        let len: u64 = match self.read_seq_len() {
            Ok(n) => n,
            Err(e) => {
                return Err(e);
            },
        };
        if d <= 1 {
            return Err(Error::RecursionLimit);
        }
        let dd: u8 = d - 1;
        match self.deserialize_items(property, len, dd) {
            Ok(items) => Ok(Value::List(List { inner: items })),
            Err(e) => Err(e),
        }
    }

    /// Decodes `len` successive data items of one property.
    #[verifier::loop_isolation(false)]
    #[verifier::rlimit(100)]
    fn deserialize_items(&mut self, property: &Property, len: u64, dd: u8) -> (r: Result<
        Vec<Value>,
        Error,
    >)
        requires
            old(self).wf(),
        ensures
            final(self).wf(),
            final(self).same_ctx(*old(self)),
            match r {
                Ok(items) => s_items::<T>(
                    old(self).sctx(),
                    property@,
                    old(self).reader.pos(),
                    len as nat,
                    dd as nat,
                    Seq::empty(),
                ) == Ok::<_, Error>((mvals_of(items@), final(self).reader.pos())) && vals_swf(
                    items@,
                ),
                Err(e) => s_items::<T>(
                    old(self).sctx(),
                    property@,
                    old(self).reader.pos(),
                    len as nat,
                    dd as nat,
                    Seq::empty(),
                ) == Err::<(Seq<MValue>, int), _>(e),
            },
        decreases dd as int, 7int, 0int,
    {
        let ghost cx = self.sctx();
        let ghost p1 = self.reader.pos();
        let mut items: Vec<Value> = Vec::new();
        let mut k: u64 = 0;
        while k < len
            invariant
                self.wf(),
                self.same_ctx(*old(self)),
                0 <= k <= len,
                vals_swf(items@),
                s_items::<T>(cx, property@, p1, len as nat, dd as nat, Seq::empty())
                    == s_items::<T>(
                    cx,
                    property@,
                    self.reader.pos(),
                    (len - k) as nat,
                    dd as nat,
                    mvals_of(items@),
                ),
            decreases len - k,
        {
            let value: Value = match self.deserialize_data(property, dd) {
                Ok(v) => v,
                Err(e) => {
                    return Err(e);
                },
            };
            proof {
                assert(items@.push(value).drop_last() =~= items@);
                assert(items@.push(value).last() == value);
                assert(vals_swf(items@.push(value)));
                assert(mvals_of(items@.push(value)) == mvals_of(items@).push(value.mval()));
            }
            items.push(value);
            k = k + 1;
        }
        Ok(items)
    }

    /// Decodes one datum: an enum or bitflag, a simple leaf, or a
    /// nested object as the fallback.
    fn deserialize_data(&mut self, property: &Property, d: u8) -> (r: Result<Value, Error>)
        requires
            old(self).wf(),
        ensures
            final(self).wf(),
            final(self).same_ctx(*old(self)),
            match r {
                Ok(v) => s_data::<T>(old(self).sctx(), property@, old(self).reader.pos(), d as nat)
                    == Ok::<_, Error>((v.mval(), final(self).reader.pos())) && v.swf(),
                Err(e) => s_data::<T>(
                    old(self).sctx(),
                    property@,
                    old(self).reader.pos(),
                    d as nat,
                ) == Err::<(MValue, int), _>(e),
            },
        decreases d as int, 5int, 0int,
    {
        if property.flags.intersects(BITS | ENUM) {
            self.deserialize_enum_variant(property)
        } else if is_simple_type(property.ty.as_str()) {
            self.deserialize_simple_data(property.ty.as_str())
        } else {
            self.deserialize_limited(d)
        }
    }
}

} // verus!
