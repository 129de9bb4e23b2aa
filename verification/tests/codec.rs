use cyclonedds_rs::decode::{decode, decode_bytes, DecodeError};
use cyclonedds_rs::encode::{encode, encode_into, serialized_size, EncodeError};
use cyclonedds_rs::sg_reader::SGReader;
use cyclonedds_rs::value::{conforms, Member, Prim, Shape, Value};

fn member(shape: Shape) -> Member {
    Member { key: false, shape }
}

fn key(shape: Shape) -> Member {
    Member { key: true, shape }
}

fn point_shape() -> Shape {
    Shape::Struct(vec![
        key(Shape::Scalar(Prim::U32)),
        member(Shape::Scalar(Prim::F64)),
        member(Shape::Scalar(Prim::F64)),
    ])
}

fn point(id: u32, x: f64, y: f64) -> Value {
    Value::Tuple(vec![
        Value::Scalar(Prim::U32, id as u64),
        Value::Scalar(Prim::F64, x.to_bits()),
        Value::Scalar(Prim::F64, y.to_bits()),
    ])
}

fn same(a: &Value, b: &Value) -> bool {
    format!("{:?}", a) == format!("{:?}", b)
}

#[test]
fn point_encodes_as_header_and_twenty_four_bytes() {
    let bytes = encode(&point(0x01020304, 1.5, -2.0)).unwrap();
    let mut expected = vec![0u8, 0, 0, 0, 1, 2, 3, 4, 0, 0, 0, 0];
    expected.extend_from_slice(&1.5f64.to_be_bytes());
    expected.extend_from_slice(&(-2.0f64).to_be_bytes());
    assert_eq!(bytes, expected);
    assert_eq!(serialized_size(&point(0x01020304, 1.5, -2.0)), Ok(28));
}

#[test]
fn point_agrees_with_cdr() {
    let ours = encode(&point(7, 0.25, 1e10)).unwrap();
    let theirs = cdr::serialize::<_, _, cdr::CdrBe>(&(7u32, 0.25f64, 1e10f64), cdr::Infinite).unwrap();
    assert_eq!(ours, theirs);
    assert_eq!(serialized_size(&point(7, 0.25, 1e10)).unwrap(), cdr::calc_serialized_size(&(7u32, 0.25f64, 1e10f64)));
}

#[test]
fn point_round_trips() {
    let value = point(42, 3.25, -0.5);
    let bytes = encode(&value).unwrap();
    let decoded = decode_bytes(&point_shape(), &bytes).unwrap();
    assert!(same(&decoded, &value));
}

fn mixed() -> (Shape, Value) {
    let shape = Shape::Struct(vec![
        member(Shape::Scalar(Prim::U8)),
        member(Shape::Scalar(Prim::I16)),
        member(Shape::Text),
        member(Shape::Scalar(Prim::Bool)),
        member(Shape::Scalar(Prim::I64)),
        member(Shape::List(Box::new(Shape::Scalar(Prim::U16)))),
        member(Shape::Array(Box::new(Shape::Scalar(Prim::I32)), 3)),
        member(Shape::Enum(3)),
        member(Shape::List(Box::new(Shape::Text))),
        member(Shape::Struct(vec![member(Shape::Scalar(Prim::U8)), member(Shape::Scalar(Prim::F32))])),
    ]);
    let value = Value::Tuple(vec![
        Value::Scalar(Prim::U8, 200),
        Value::Scalar(Prim::I16, (-2i16) as u16 as u64),
        Value::Text(String::from("héllo")),
        Value::Scalar(Prim::Bool, 1),
        Value::Scalar(Prim::I64, (-3i64) as u64),
        Value::List(vec![Value::Scalar(Prim::U16, 1), Value::Scalar(Prim::U16, 0xfffe)]),
        Value::Tuple(vec![
            Value::Scalar(Prim::I32, 5),
            Value::Scalar(Prim::I32, (-6i32) as u32 as u64),
            Value::Scalar(Prim::I32, 7),
        ]),
        Value::Enum(2),
        Value::List(vec![Value::Text(String::from("")), Value::Text(String::from("one"))]),
        Value::Tuple(vec![Value::Scalar(Prim::U8, 9), Value::Scalar(Prim::F32, 2.5f32.to_bits() as u64)]),
    ]);
    (shape, value)
}

#[test]
fn a_mixed_value_agrees_with_cdr() {
    let (_, value) = mixed();
    let theirs = cdr::serialize::<_, _, cdr::CdrBe>(
        &(
            200u8,
            -2i16,
            String::from("héllo"),
            true,
            -3i64,
            vec![1u16, 0xfffe],
            [5i32, -6, 7],
            2u32,
            vec![String::from(""), String::from("one")],
            (9u8, 2.5f32),
        ),
        cdr::Infinite,
    )
    .unwrap();
    assert_eq!(encode(&value).unwrap(), theirs);
    assert_eq!(serialized_size(&value).unwrap(), theirs.len() as u64);
}

#[test]
fn a_mixed_value_round_trips() {
    let (shape, value) = mixed();
    let bytes = encode(&value).unwrap();
    assert!(same(&decode_bytes(&shape, &bytes).unwrap(), &value));
}

#[test]
fn decoding_reads_what_cdr_wrote() {
    let bytes = cdr::serialize::<_, _, cdr::CdrBe>(&(1u8, 0x0203u16, String::from("ab")), cdr::Infinite).unwrap();
    let shape = Shape::Struct(vec![
        member(Shape::Scalar(Prim::U8)),
        member(Shape::Scalar(Prim::U16)),
        member(Shape::Text),
    ]);
    let expected = Value::Tuple(vec![
        Value::Scalar(Prim::U8, 1),
        Value::Scalar(Prim::U16, 0x0203),
        Value::Text(String::from("ab")),
    ]);
    assert!(same(&decode_bytes(&shape, &bytes).unwrap(), &expected));
}

#[test]
fn decoding_reads_little_endian_too() {
    let bytes = cdr::serialize::<_, _, cdr::CdrLe>(&(1u8, 0x0203u16, 0x04050607u32, String::from("ab")), cdr::Infinite)
        .unwrap();
    assert_eq!(bytes[1], 1);
    let shape = Shape::Struct(vec![
        member(Shape::Scalar(Prim::U8)),
        member(Shape::Scalar(Prim::U16)),
        member(Shape::Scalar(Prim::U32)),
        member(Shape::Text),
    ]);
    let expected = Value::Tuple(vec![
        Value::Scalar(Prim::U8, 1),
        Value::Scalar(Prim::U16, 0x0203),
        Value::Scalar(Prim::U32, 0x04050607),
        Value::Text(String::from("ab")),
    ]);
    assert!(same(&decode_bytes(&shape, &bytes).unwrap(), &expected));
}

#[test]
fn decoding_from_fragments_needs_no_copy_of_the_whole() {
    let value = point(42, 3.25, -0.5);
    let bytes = encode(&value).unwrap();
    let fragments: Vec<&[u8]> = vec![&bytes[0..3], &bytes[3..5], &bytes[5..17], &bytes[17..]];
    let mut reader = SGReader::new(&fragments);
    let decoded = decode(&point_shape(), &mut reader, Some(bytes.len() as u64)).unwrap();
    assert!(same(&decoded, &value));
}

#[test]
fn a_bound_shorter_than_the_message_is_a_size_limit() {
    let bytes = encode(&point(42, 3.25, -0.5)).unwrap();
    let list: [&[u8]; 1] = [&bytes];
    for bound in 0..bytes.len() as u64 {
        let mut reader = SGReader::new(&list);
        assert_eq!(decode(&point_shape(), &mut reader, Some(bound)).unwrap_err(), DecodeError::SizeLimit);
    }
    let mut reader = SGReader::new(&list);
    assert!(decode(&point_shape(), &mut reader, Some(bytes.len() as u64)).is_ok());
}

#[test]
fn truncated_input_is_an_unexpected_end() {
    let bytes = encode(&point(42, 3.25, -0.5)).unwrap();
    for cut in 0..bytes.len() {
        assert_eq!(decode_bytes(&point_shape(), &bytes[..cut]).unwrap_err(), DecodeError::UnexpectedEof);
    }
}

#[test]
fn bytes_behind_the_value_are_ignored() {
    let value = point(42, 3.25, -0.5);
    let mut bytes = encode(&value).unwrap();
    bytes.extend_from_slice(&[1, 2, 3]);
    assert!(same(&decode_bytes(&point_shape(), &bytes).unwrap(), &value));
}

#[test]
fn every_decode_error_has_an_input() {
    let flag = Shape::Scalar(Prim::Bool);
    assert_eq!(decode_bytes(&flag, &[0, 0, 0, 0, 2]).unwrap_err(), DecodeError::InvalidBool);
    assert_eq!(decode_bytes(&Shape::Enum(2), &[0, 0, 0, 0, 0, 0, 0, 2]).unwrap_err(), DecodeError::InvalidVariant);
    assert_eq!(
        decode_bytes(&Shape::Text, &[0, 0, 0, 0, 0, 0, 0, 2, 0xff, 0]).unwrap_err(),
        DecodeError::InvalidUtf8
    );
    assert_eq!(decode_bytes(&flag, &[0, 4, 0, 0, 1]).unwrap_err(), DecodeError::InvalidEncapsulation);
    assert_eq!(decode_bytes(&flag, &[0, 0, 0]).unwrap_err(), DecodeError::UnexpectedEof);
    let bytes: &[u8] = &[0, 0, 0, 0, 1];
    let list = [bytes];
    let mut reader = SGReader::new(&list);
    assert_eq!(decode(&flag, &mut reader, Some(3)).unwrap_err(), DecodeError::SizeLimit);
}

#[test]
fn a_text_may_end_in_any_byte_and_may_be_empty_on_the_wire() {
    let text = decode_bytes(&Shape::Text, &[0, 0, 0, 0, 0, 0, 0, 3, b'h', b'i', b'!']).unwrap();
    assert!(same(&text, &Value::Text(String::from("hi"))));
    let none = decode_bytes(&Shape::Text, &[0, 0, 0, 0, 0, 0, 0, 0]).unwrap();
    assert!(same(&none, &Value::Text(String::new())));
    assert_eq!(cdr::deserialize::<String>(&[0, 0, 0, 0, 0, 0, 0, 3, b'h', b'i', b'!']).unwrap(), "hi");
}

#[test]
fn encode_into_refuses_what_does_not_fit() {
    let value = point(1, 0.0, 0.0);
    assert_eq!(encode_into(&value, 27), Err(EncodeError::SizeLimit));
    assert_eq!(encode_into(&value, 28), encode(&value));
    assert_eq!(encode_into(&value, 1000), encode(&value));
}

#[test]
fn a_scalar_wider_than_its_kind_keeps_its_low_bytes() {
    assert_eq!(encode(&Value::Scalar(Prim::U8, 0x1234)).unwrap(), vec![0, 0, 0, 0, 0x34]);
}

#[test]
fn alignment_counts_from_the_end_of_the_header() {
    let value = Value::Tuple(vec![Value::Scalar(Prim::U8, 1), Value::Scalar(Prim::U64, 2)]);
    assert_eq!(encode(&value).unwrap(), vec![0, 0, 0, 0, 1, 0, 0, 0, 0, 0, 0, 0, 0, 0, 0, 0, 0, 0, 0, 2]);
}

type Mixed = (u8, i16, String, bool, i64, Vec<u16>, [i32; 3], u32, Vec<String>, (u8, f32));

#[test]
fn decoding_succeeds_under_the_bounds_under_which_cdr_does() {
    let (shape, value) = mixed();
    let bytes = encode(&value).unwrap();
    let list: [&[u8]; 1] = [&bytes];
    for bound in 0..(bytes.len() as u64 + 3) {
        let theirs = cdr::deserialize_from::<_, Mixed, _>(&bytes[..], cdr::Bounded(bound));
        let mut reader = SGReader::new(&list);
        let ours = decode(&shape, &mut reader, Some(bound));
        assert_eq!(ours.is_ok(), theirs.is_ok(), "bound {}", bound);
        if bound < bytes.len() as u64 {
            assert_eq!(ours.unwrap_err(), DecodeError::SizeLimit);
            assert!(matches!(theirs.unwrap_err(), cdr::Error::SizeLimit));
        }
    }
}

#[test]
fn decoding_succeeds_on_the_prefixes_on_which_cdr_does() {
    let (shape, value) = mixed();
    let bytes = encode(&value).unwrap();
    for cut in 0..=bytes.len() {
        let theirs = cdr::deserialize::<Mixed>(&bytes[..cut]);
        let ours = decode_bytes(&shape, &bytes[..cut]);
        assert_eq!(ours.is_ok(), theirs.is_ok(), "cut {}", cut);
    }
}

#[test]
fn decoding_agrees_with_cdr_on_damaged_input() {
    let (shape, value) = mixed();
    let bytes = encode(&value).unwrap();
    for at in 0..bytes.len() {
        for flip in [0x01u8, 0x80, 0xff] {
            let mut damaged = bytes.clone();
            damaged[at] ^= flip;
            let ours = decode_bytes(&shape, &damaged);
            if ours == Err(DecodeError::UnexpectedEof) {
                // a length beyond the input: cdr would ask for that much memory first
                continue;
            }
            let theirs = cdr::deserialize::<Mixed>(&damaged);
            match (ours, theirs) {
                (Ok(ours), Ok(theirs)) => {
                    let back = cdr::serialize::<_, _, cdr::CdrBe>(&theirs, cdr::Infinite).unwrap();
                    assert_eq!(encode(&ours).unwrap(), back, "at {} flip {}", at, flip);
                }
                (Err(_), Err(_)) => {}
                (Ok(ours), Err(_)) => {
                    // the one difference: an enumeration is a plain number to cdr's tuple
                    panic!("at {} flip {}: decoded {:?} what cdr refuses", at, flip, ours)
                }
                (Err(e), Ok(_)) => assert_eq!(e, DecodeError::InvalidVariant, "at {} flip {}", at, flip),
            }
        }
    }
}

#[test]
fn sequences_of_structures_agree_with_cdr() {
    let shape = Shape::List(Box::new(Shape::Struct(vec![
        member(Shape::Scalar(Prim::U8)),
        member(Shape::List(Box::new(Shape::Scalar(Prim::U64)))),
        member(Shape::Text),
    ])));
    let data: Vec<(u8, Vec<u64>, String)> =
        vec![(1, vec![], String::from("a")), (2, vec![3, 4], String::new()), (5, vec![6], String::from("seven"))];
    let value = Value::List(
        data.iter()
            .map(|(a, b, c)| {
                Value::Tuple(vec![
                    Value::from_u8(*a),
                    Value::List(b.iter().map(|x| Value::from_u64(*x)).collect()),
                    Value::from_str(c),
                ])
            })
            .collect(),
    );
    let theirs = cdr::serialize::<_, _, cdr::CdrBe>(&data, cdr::Infinite).unwrap();
    assert_eq!(encode(&value).unwrap(), theirs);
    assert_eq!(decode_bytes(&shape, &theirs).unwrap(), value);
    let little = cdr::serialize::<_, _, cdr::CdrLe>(&data, cdr::Infinite).unwrap();
    assert_eq!(decode_bytes(&shape, &little).unwrap(), value);
    let empty: Vec<(u8, Vec<u64>, String)> = vec![];
    assert_eq!(
        encode(&Value::List(vec![])).unwrap(),
        cdr::serialize::<_, _, cdr::CdrBe>(&empty, cdr::Infinite).unwrap()
    );
}

#[test]
fn signed_numbers_agree_with_cdr() {
    let value = Value::Tuple(vec![
        Value::from_i8(i8::MIN),
        Value::from_i16(i16::MIN),
        Value::from_i32(i32::MIN),
        Value::from_i64(i64::MIN),
        Value::from_i8(-1),
        Value::from_i16(-1),
        Value::from_i32(-1),
        Value::from_i64(-1),
        Value::from_i64(i64::MAX),
        Value::from_bool(false),
        Value::from_f32_bits((-0.0f32).to_bits()),
    ]);
    let theirs = cdr::serialize::<_, _, cdr::CdrBe>(
        &(i8::MIN, i16::MIN, i32::MIN, i64::MIN, -1i8, -1i16, -1i32, -1i64, i64::MAX, false, -0.0f32),
        cdr::Infinite,
    )
    .unwrap();
    assert_eq!(encode(&value).unwrap(), theirs);
    assert_eq!(Value::from_i32(-5).to_i64(), Some(-5));
    assert_eq!(Value::from_i64(i64::MIN).to_i64(), Some(i64::MIN));
    assert_eq!(Value::from_i8(-128).to_i64(), Some(-128));
    assert_eq!(Value::from_i16(32767).to_i64(), Some(32767));
    assert_eq!(Value::from_u32(5).to_i64(), None);
    assert_eq!(Value::Scalar(Prim::I8, 0x100).to_i64(), None);
    assert_eq!(Value::from_u32(5).to_bits(), Some(5));
    assert_eq!(Value::from_str("x").to_bits(), None);
    assert_eq!(Value::from_str("x").to_text(), Some(&String::from("x")));
    assert_eq!(Value::from_u8(1).to_text(), None);
    assert_eq!(Value::List(vec![Value::from_u8(1)]).items(), Some(&vec![Value::from_u8(1)]));
    assert_eq!(Value::from_u8(1).items(), None);
}

#[test]
fn a_value_conforms_to_its_shape_alone() {
    let (shape, value) = mixed();
    assert!(conforms(&value, &shape));
    assert!(conforms(&point(1, 2.0, 3.0), &point_shape()));
    assert!(!conforms(&point(1, 2.0, 3.0), &shape));
    assert!(!conforms(&Value::Scalar(Prim::U8, 256), &Shape::Scalar(Prim::U8)));
    assert!(!conforms(&Value::Scalar(Prim::Bool, 2), &Shape::Scalar(Prim::Bool)));
    assert!(!conforms(&Value::from_u8(1), &Shape::Scalar(Prim::I8)));
    assert!(!conforms(&Value::Enum(3), &Shape::Enum(3)));
    assert!(conforms(&Value::Enum(2), &Shape::Enum(3)));
    assert!(!conforms(&Value::Tuple(vec![]), &Shape::Array(Box::new(Shape::Text), 1)));
    assert!(conforms(&Value::Tuple(vec![]), &Shape::Struct(vec![])));
    assert!(!conforms(&Value::List(vec![Value::from_u8(1)]), &Shape::List(Box::new(Shape::Text))));
    assert!(!conforms(&Value::Tuple(vec![Value::from_u8(1)]), &Shape::List(Box::new(Shape::Scalar(Prim::U8)))));
    assert_eq!(value.clone(), value);
    assert_ne!(value, point(1, 2.0, 3.0));
    assert_eq!(shape.clone(), shape);
    assert_ne!(shape, point_shape());
}

#[test]
fn short_values_are_encodable() {
    assert!(cyclonedds_rs::encode::is_encodable(&Value::from_str("short")));
    let (_, value) = mixed();
    assert!(cyclonedds_rs::encode::is_encodable(&value));
}
