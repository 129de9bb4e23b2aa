use cyclonedds_rs::key::KeyScheme;
use cyclonedds_rs::sample::{Sample, SampleData};
use cyclonedds_rs::serdata::{get_size, serdata_from_sample, SDK_DATA};
use cyclonedds_rs::sertype::SerType;
use cyclonedds_rs::topic_name::{topic_name, typename};
use cyclonedds_rs::value::{Member, Prim, Shape, Value};
use std::sync::Arc;

fn member(shape: Shape) -> Member {
    Member { key: false, shape }
}

fn key(shape: Shape) -> Member {
    Member { key: true, shape }
}

fn text(bytes: Vec<u8>) -> String {
    String::from_utf8(bytes).unwrap()
}

#[test]
fn test_topic_creation() {
    let path = "cyclonedds_rs::dds_topic::test::test_topic_creation::MyTopic";
    assert_eq!(text(topic_name(path, None)), String::from("/dds_topic/test/test_topic_creation/MyTopic"));
    assert_eq!(
        text(topic_name(path, Some("prefix"))),
        String::from("prefix/dds_topic/test/test_topic_creation/MyTopic")
    );

    let shape = Shape::Struct(vec![
        key(Shape::Scalar(Prim::U32)),
        member(Shape::Scalar(Prim::U32)),
        member(Shape::Text),
        member(Shape::Scalar(Prim::U32)),
    ]);
    let topic = SerType::new(text(typename(path)), shape, false, 48).unwrap();
    assert_eq!(topic.typename(), "dds_topic::test::test_topic_creation::MyTopic");
    assert!(topic.has_key());

    let data = Arc::new(Value::Tuple(vec![
        Value::from_u32(1),
        Value::from_u32(32),
        Value::from_str("my_data_sample"),
        Value::from_u32(546),
    ]));
    let sample = Sample::from(data.clone());
    let mut cell = serdata_from_sample(SDK_DATA, &sample).unwrap();
    match cell.sample() {
        SampleData::SDKData(written) => assert_eq!(**written, *data),
        _ => panic!("the cell holds no value"),
    }
    assert_eq!(get_size(&mut cell), 4 + 4 + 4 + 4 + 15 + 1 + 4);
}

fn nested_foo() -> Shape {
    Shape::Struct(vec![member(Shape::Text), member(Shape::Scalar(Prim::U64)), key(Shape::Scalar(Prim::U32))])
}

#[test]
fn serdes_basic() {
    let foo = Shape::Struct(vec![
        key(Shape::Scalar(Prim::I32)),
        member(Shape::Scalar(Prim::U32)),
        key(Shape::Text),
        member(Shape::Scalar(Prim::U32)),
        key(nested_foo()),
    ]);
    let t = SerType::new(String::from("serdes::test::basic::Foo"), foo, false, 96).unwrap();
    assert!(t.has_key());
    assert!(t.force_md5_keyhash());
    assert_eq!(t.scheme(), KeyScheme::Reduced);
    assert!(!t.is_fixed_size());
}

#[test]
fn deserializer_basic() {
    let nested = Shape::Struct(vec![
        key(Shape::Scalar(Prim::U32)),
        member(Shape::Text),
        member(Shape::Scalar(Prim::U8)),
        member(Shape::List(Box::new(Shape::Scalar(Prim::U8)))),
    ]);
    let topic_struct = Shape::Struct(vec![
        key(Shape::Scalar(Prim::U32)),
        member(Shape::Scalar(Prim::U32)),
        member(Shape::Array(Box::new(Shape::Scalar(Prim::U8)), 32)),
        key(nested),
    ]);
    let t = SerType::new(String::from("deserializer::TopicStruct"), topic_struct, false, 104).unwrap();
    assert!(t.has_key());
    assert!(!t.force_md5_keyhash());
    assert_eq!(t.scheme(), KeyScheme::Raw);
    assert_eq!(
        t.key_holder(),
        &Shape::Struct(vec![key(Shape::Scalar(Prim::U32)), key(Shape::Struct(vec![key(Shape::Scalar(Prim::U32))]))])
    );
}
