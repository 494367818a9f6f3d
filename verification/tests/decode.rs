use objectproperty::error::Error;
use objectproperty::flags::{
    BITS, COMPACT_LENGTH_PREFIXES, DELTA_ENCODE, ENUM, FORBID_DELTA_ENCODE, HUMAN_READABLE_ENUMS,
    PRIVILEGED_TRANSMIT, STATEFUL_FLAGS, TRANSMIT, WITH_COMPRESSION,
};
use objectproperty::registry::{Property, StringOrInt, TypeDef, TypeList};
use objectproperty::serialization::{Deserializer, DeserializerOptions};
use objectproperty::type_tag::PropertyClass;
use objectproperty::value::Value;

use std::io::Write;

const MASK: u32 = TRANSMIT | PRIVILEGED_TRANSMIT;

fn prop(name: &str, hash: u32, ty: &str, flags: u32, dynamic: bool) -> Property {
    Property {
        name: name.to_string(),
        hash,
        ty: ty.to_string(),
        flags: objectproperty::flags::PropertyFlags { bits: flags },
        dynamic,
        enum_options: Vec::new(),
    }
}

fn registry(props: Vec<Property>) -> TypeList {
    let mut tl = TypeList::new();
    tl.insert(
        1,
        TypeDef {
            name: "TRoot".to_string(),
            properties: props,
        },
    );
    tl
}

fn decode(opts: DeserializerOptions, types: &TypeList, wire: &[u8]) -> Result<Value, Error> {
    let mut de: Deserializer<PropertyClass> = Deserializer::new(opts, types);
    de.feed_data(wire)?;
    de.deserialize()
}

fn shallow_opts() -> DeserializerOptions {
    DeserializerOptions {
        shallow: true,
        ..Default::default()
    }
}

fn member<'a>(v: &'a Value, name: &str) -> &'a Value {
    match v {
        Value::Object(o) => {
            for (n, m) in &o.inner {
                if n == name {
                    return m;
                }
            }
            panic!("member {name} not found");
        }
        other => panic!("not an object: {other:?}"),
    }
}

fn zlib(data: &[u8]) -> Vec<u8> {
    let mut enc = flate2::write::ZlibEncoder::new(Vec::new(), flate2::Compression::default());
    enc.write_all(data).unwrap();
    enc.finish().unwrap()
}

#[test]
fn compact_length_127_is_one_byte() {
    let types = registry(vec![prop("s", 7, "std::string", MASK, false)]);
    let mut opts = shallow_opts();
    opts.flags.bits = COMPACT_LENGTH_PREFIXES;
    let mut wire = vec![1, 0, 0, 0, 0xFE];
    wire.extend(std::iter::repeat(b'a').take(127));
    let v = decode(opts, &types, &wire).unwrap();
    assert_eq!(member(&v, "s"), &Value::String(vec![b'a'; 127]));
}

#[test]
fn compact_length_128_is_four_bytes() {
    let types = registry(vec![prop("s", 7, "std::string", MASK, false)]);
    let mut opts = shallow_opts();
    opts.flags.bits = COMPACT_LENGTH_PREFIXES;
    // marker bit 1, then 128 in the following 31 bits: u32 value 257.
    let mut wire = vec![1, 0, 0, 0, 0x01, 0x01, 0x00, 0x00];
    wire.extend(std::iter::repeat(b'b').take(128));
    let v = decode(opts, &types, &wire).unwrap();
    assert_eq!(member(&v, "s"), &Value::String(vec![b'b'; 128]));
}

#[test]
fn empty_object_consumes_four_bytes() {
    let types = TypeList::new();
    let mut de: Deserializer<PropertyClass> = Deserializer::new(Default::default(), &types);
    de.feed_data(&[0, 0, 0, 0, 9, 9]).unwrap();
    let v = de.deserialize().unwrap();
    assert_eq!(v, Value::Empty);
    assert_eq!(de.reader.byte, 4);
    assert_eq!(de.reader.bit, 0);
}

#[test]
fn delta_absent_property_is_empty_and_balances() {
    let types = registry(vec![prop("d", 7, "unsigned int", MASK | DELTA_ENCODE, false)]);
    let wire = [1, 0, 0, 0, 9, 0, 0, 0, 9, 0, 0, 0, 7, 0, 0, 0, 0];
    let v = decode(Default::default(), &types, &wire).unwrap();
    assert_eq!(member(&v, "d"), &Value::Empty);
}

#[test]
fn exhaustive_walk_accepts_matching_sizes() {
    let types = registry(vec![prop("n", 7, "unsigned int", MASK, false)]);
    let wire = [1, 0, 0, 0, 12, 0, 0, 0, 12, 0, 0, 0, 7, 0, 0, 0, 42, 0, 0, 0];
    let v = decode(Default::default(), &types, &wire).unwrap();
    assert_eq!(member(&v, "n"), &Value::Unsigned(42));
}

#[test]
fn exhaustive_walk_rejects_wrong_property_size() {
    let types = registry(vec![prop("n", 7, "unsigned int", MASK, false)]);
    let wire = [1, 0, 0, 0, 12, 0, 0, 0, 11, 0, 0, 0, 7, 0, 0, 0, 42, 0, 0, 0];
    assert_eq!(
        decode(Default::default(), &types, &wire),
        Err(Error::PropertySize)
    );
}

#[test]
fn exhaustive_walk_rejects_overrun_of_object_size() {
    let types = registry(vec![prop("n", 7, "unsigned int", MASK, false)]);
    let wire = [1, 0, 0, 0, 10, 0, 0, 0, 12, 0, 0, 0, 7, 0, 0, 0, 42, 0, 0, 0];
    assert_eq!(
        decode(Default::default(), &types, &wire),
        Err(Error::ObjectSizeMismatch)
    );
}

#[test]
fn parametric_point_of_float() {
    let types = registry(vec![prop("p", 7, "class Point<float>", MASK, false)]);
    let wire = [1, 0, 0, 0, 0x00, 0x00, 0x80, 0x3F, 0x00, 0x00, 0x00, 0x40];
    let v = decode(shallow_opts(), &types, &wire).unwrap();
    let expected = Value::Point {
        xy: Box::new((
            Value::Float32(1.0f32.to_bits()),
            Value::Float32(2.0f32.to_bits()),
        )),
    };
    assert_eq!(member(&v, "p"), &expected);
}

#[test]
fn human_readable_enum_is_prefixed() {
    let types = registry(vec![prop("e", 7, "EFoo", MASK | ENUM, false)]);
    let mut opts = shallow_opts();
    opts.flags.bits = HUMAN_READABLE_ENUMS;
    let wire = [1, 0, 0, 0, 3, 0, b'B', b'a', b'r'];
    let v = decode(opts, &types, &wire).unwrap();
    assert_eq!(member(&v, "e"), &Value::Enum("EFoo::Bar".to_string()));
}

#[test]
fn integer_enum_resolves_variant() {
    let mut p = prop("e", 7, "EFoo", MASK | ENUM, false);
    p.enum_options = vec![
        ("Apple".to_string(), StringOrInt::Int(1)),
        ("Banana".to_string(), StringOrInt::Int(2)),
    ];
    let types = registry(vec![p]);
    let wire = [1, 0, 0, 0, 2, 0, 0, 0];
    let v = decode(shallow_opts(), &types, &wire).unwrap();
    assert_eq!(member(&v, "e"), &Value::Enum("EFoo::Banana".to_string()));
}

#[test]
fn integer_enum_rejects_unknown_value() {
    let mut p = prop("e", 7, "EFoo", MASK | ENUM, false);
    p.enum_options = vec![("Apple".to_string(), StringOrInt::Int(1))];
    let types = registry(vec![p]);
    let wire = [1, 0, 0, 0, 9, 0, 0, 0];
    assert_eq!(
        decode(shallow_opts(), &types, &wire),
        Err(Error::UnknownEnumVariant)
    );
}

#[test]
fn integer_bitflags_compose_in_bit_order() {
    let mut p = prop("e", 7, "EFoo", MASK | BITS, false);
    p.enum_options = vec![
        ("A".to_string(), StringOrInt::Int(1)),
        ("B".to_string(), StringOrInt::Int(2)),
    ];
    let types = registry(vec![p]);
    let wire = [1, 0, 0, 0, 3, 0, 0, 0];
    let v = decode(shallow_opts(), &types, &wire).unwrap();
    assert_eq!(member(&v, "e"), &Value::Enum("A | B".to_string()));
}

#[test]
fn integer_bitflags_zero_is_empty() {
    let mut p = prop("e", 7, "EFoo", MASK | BITS, false);
    p.enum_options = vec![("A".to_string(), StringOrInt::Int(1))];
    let types = registry(vec![p]);
    let wire = [1, 0, 0, 0, 0, 0, 0, 0];
    let v = decode(shallow_opts(), &types, &wire).unwrap();
    assert_eq!(member(&v, "e"), &Value::Enum(String::new()));
}

#[test]
fn integer_bitflags_reject_unnamed_bit() {
    let mut p = prop("e", 7, "EFoo", MASK | BITS, false);
    p.enum_options = vec![("A".to_string(), StringOrInt::Int(1))];
    let types = registry(vec![p]);
    let wire = [1, 0, 0, 0, 4, 0, 0, 0];
    assert_eq!(
        decode(shallow_opts(), &types, &wire),
        Err(Error::UnknownEnumVariant)
    );
}

#[test]
fn signed_bit_integer_sign_extends() {
    let types = registry(vec![prop("b", 7, "bi3", MASK, false)]);
    // bits LSB-first: 0b110 encodes -2 in three bits.
    let wire = [1, 0, 0, 0, 0b110];
    let v = decode(shallow_opts(), &types, &wire).unwrap();
    assert_eq!(member(&v, "b"), &Value::Signed(-2));
}

#[test]
fn unsigned_bit_integer_reads_raw_bits() {
    let types = registry(vec![prop("b", 7, "bui3", MASK, false)]);
    let wire = [1, 0, 0, 0, 5];
    let v = decode(shallow_opts(), &types, &wire).unwrap();
    assert_eq!(member(&v, "b"), &Value::Unsigned(5));
}

#[test]
fn signed_char_wraps_to_negative() {
    let types = registry(vec![prop("c", 7, "char", MASK, false)]);
    let wire = [1, 0, 0, 0, 0x80];
    let v = decode(shallow_opts(), &types, &wire).unwrap();
    assert_eq!(member(&v, "c"), &Value::Signed(-128));
}

#[test]
fn color_reads_bgra_order() {
    let types = registry(vec![prop("c", 7, "class Color", MASK, false)]);
    let wire = [1, 0, 0, 0, 1, 2, 3, 4];
    let v = decode(shallow_opts(), &types, &wire).unwrap();
    assert_eq!(
        member(&v, "c"),
        &Value::Color { b: 1, g: 2, r: 3, a: 4 }
    );
}

#[test]
fn dynamic_property_decodes_prefixed_count() {
    let types = registry(vec![prop("l", 7, "unsigned char", MASK, true)]);
    let wire = [1, 0, 0, 0, 2, 0, 0, 0, 7, 9];
    let v = decode(shallow_opts(), &types, &wire).unwrap();
    match member(&v, "l") {
        Value::List(l) => {
            assert_eq!(l.inner, vec![Value::Unsigned(7), Value::Unsigned(9)]);
        }
        other => panic!("not a list: {other:?}"),
    }
}

#[test]
fn wide_string_reads_u16_units() {
    let types = registry(vec![prop("w", 7, "std::wstring", MASK, false)]);
    let wire = [1, 0, 0, 0, 2, 0, 0x41, 0x00, 0x42, 0x00];
    let v = decode(shallow_opts(), &types, &wire).unwrap();
    assert_eq!(member(&v, "w"), &Value::WString(vec![0x41, 0x42]));
}

#[test]
fn manual_compression_inflates_and_checks_size() {
    let types = TypeList::new();
    let mut opts = DeserializerOptions::default();
    opts.manual_compression = true;
    let mut wire = vec![4, 0, 0, 0];
    wire.extend(zlib(&[0, 0, 0, 0]));
    let v = decode(opts, &types, &wire).unwrap();
    assert_eq!(v, Value::Empty);
}

#[test]
fn manual_compression_rejects_size_mismatch() {
    let types = TypeList::new();
    let mut opts = DeserializerOptions::default();
    opts.manual_compression = true;
    let mut wire = vec![5, 0, 0, 0];
    wire.extend(zlib(&[0, 0, 0, 0]));
    assert_eq!(decode(opts, &types, &wire), Err(Error::CompressionSize));
}

#[test]
fn compression_marker_selects_inflation() {
    let types = TypeList::new();
    let mut opts = DeserializerOptions::default();
    opts.flags.bits = WITH_COMPRESSION;
    let mut wire = vec![1, 4, 0, 0, 0];
    wire.extend(zlib(&[0, 0, 0, 0]));
    assert_eq!(decode(opts, &types, &wire).unwrap(), Value::Empty);

    let mut opts2 = DeserializerOptions::default();
    opts2.flags.bits = WITH_COMPRESSION;
    let wire2 = [0, 0, 0, 0, 0];
    assert_eq!(decode(opts2, &types, &wire2).unwrap(), Value::Empty);
}

#[test]
fn stateful_flags_come_from_the_stream() {
    let types = registry(vec![prop("s", 7, "std::string", MASK, false)]);
    let mut opts = shallow_opts();
    opts.flags.bits = STATEFUL_FLAGS;
    // The stream announces compact length prefixes, then the body.
    let mut wire = vec![COMPACT_LENGTH_PREFIXES as u8, 0, 0, 0, 1, 0, 0, 0, 0xFE];
    wire.extend(std::iter::repeat(b'a').take(127));
    let v = decode(opts, &types, &wire).unwrap();
    assert_eq!(member(&v, "s"), &Value::String(vec![b'a'; 127]));
}

#[test]
fn recursion_limit_stops_nested_objects() {
    let types = registry(vec![prop("o", 7, "class Sub", MASK, false)]);
    let mut opts = shallow_opts();
    opts.recursion_limit = 2;
    let wire = [1, 0, 0, 0, 1, 0, 0, 0];
    assert_eq!(decode(opts, &types, &wire), Err(Error::RecursionLimit));
}

#[test]
fn nested_object_falls_back_from_not_simple() {
    let mut tl = TypeList::new();
    tl.insert(
        1,
        TypeDef {
            name: "TRoot".to_string(),
            properties: vec![prop("o", 7, "class Sub", MASK, false)],
        },
    );
    tl.insert(
        2,
        TypeDef {
            name: "TSub".to_string(),
            properties: vec![prop("n", 8, "unsigned char", MASK, false)],
        },
    );
    let wire = [1, 0, 0, 0, 2, 0, 0, 0, 5];
    let v = decode(shallow_opts(), &tl, &wire).unwrap();
    match member(&v, "o") {
        Value::Object(o) => {
            assert_eq!(o.name, "TSub");
            assert_eq!(o.inner[0].1, Value::Unsigned(5));
        }
        other => panic!("not an object: {other:?}"),
    }
}

#[test]
fn unknown_identity_hash_is_rejected() {
    let types = TypeList::new();
    let wire = [5, 0, 0, 0];
    assert_eq!(
        decode(Default::default(), &types, &wire),
        Err(Error::UnknownType)
    );
}

#[test]
fn unknown_property_hash_is_rejected() {
    let types = registry(vec![prop("n", 7, "unsigned int", MASK, false)]);
    let wire = [1, 0, 0, 0, 12, 0, 0, 0, 12, 0, 0, 0, 99, 0, 0, 0, 42, 0, 0, 0];
    assert_eq!(
        decode(Default::default(), &types, &wire),
        Err(Error::UnknownProperty)
    );
}

#[test]
fn forbidden_absent_delta_is_rejected() {
    let types = registry(vec![prop("d", 7, "unsigned int", MASK | DELTA_ENCODE, false)]);
    let mut opts = shallow_opts();
    opts.flags.bits = FORBID_DELTA_ENCODE;
    let wire = [1, 0, 0, 0, 0];
    assert_eq!(decode(opts, &types, &wire), Err(Error::MissingDelta));
}

#[test]
fn invalid_utf8_enum_payload_is_rejected() {
    let types = registry(vec![prop("e", 7, "EFoo", MASK | ENUM, false)]);
    let mut opts = shallow_opts();
    opts.flags.bits = HUMAN_READABLE_ENUMS;
    let wire = [1, 0, 0, 0, 1, 0, 0xFF];
    assert_eq!(decode(opts, &types, &wire), Err(Error::InvalidUtf8));
}

#[test]
fn exhausted_input_is_rejected() {
    let types = TypeList::new();
    assert_eq!(
        decode(Default::default(), &types, &[]),
        Err(Error::UnexpectedEof)
    );
}

#[test]
fn members_come_out_sorted_by_name() {
    let types = registry(vec![
        prop("n", 7, "unsigned int", MASK, false),
        prop("g", 8, "unsigned char", MASK, false),
    ]);
    let wire = [
        1, 0, 0, 0, 21, 0, 0, 0, 12, 0, 0, 0, 7, 0, 0, 0, 42, 0, 0, 0, 9, 0, 0, 0, 8, 0, 0, 0, 3,
    ];
    let v = decode(Default::default(), &types, &wire).unwrap();
    match &v {
        Value::Object(o) => {
            assert_eq!(o.inner[0].0, "g");
            assert_eq!(o.inner[0].1, Value::Unsigned(3));
            assert_eq!(o.inner[1].0, "n");
            assert_eq!(o.inner[1].1, Value::Unsigned(42));
        }
        other => panic!("not an object: {other:?}"),
    }
}

#[test]
fn identical_inputs_decode_identically() {
    let types = registry(vec![prop("p", 7, "class Point<float>", MASK, false)]);
    let wire = [1, 0, 0, 0, 0x00, 0x00, 0x80, 0x3F, 0x00, 0x00, 0x00, 0x40];
    let a = decode(shallow_opts(), &types, &wire).unwrap();
    let b = decode(shallow_opts(), &types, &wire).unwrap();
    assert_eq!(a, b);
}

#[test]
fn shallow_mode_skips_deprecated_and_unmasked() {
    let types = registry(vec![
        prop("dead", 7, "unsigned char", MASK | objectproperty::flags::DEPRECATED, false),
        prop("hidden", 8, "unsigned char", 0, false),
        prop("live", 9, "unsigned char", MASK, false),
    ]);
    let wire = [1, 0, 0, 0, 11];
    let v = decode(shallow_opts(), &types, &wire).unwrap();
    match &v {
        Value::Object(o) => {
            assert_eq!(o.inner.len(), 1);
            assert_eq!(o.inner[0].0, "live");
            assert_eq!(o.inner[0].1, Value::Unsigned(11));
        }
        other => panic!("not an object: {other:?}"),
    }
}
