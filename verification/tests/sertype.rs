use cyclonedds_rs::key::{KeyError, KeyScheme};
use cyclonedds_rs::sertype::SerType;
use cyclonedds_rs::value::{Member, Prim, Shape};

fn key(shape: Shape) -> Member {
    Member { key: true, shape }
}

fn murmur(bytes: &[u8]) -> u32 {
    murmur3::murmur3_32(&mut std::io::Cursor::new(bytes), 0).unwrap()
}

#[test]
fn a_type_is_registered_with_what_follows_from_its_shape() {
    let shape = Shape::Struct(vec![key(Shape::Scalar(Prim::U32)), Member { key: false, shape: Shape::Text }]);
    let t = SerType::new(String::from("demo::Point"), shape.clone(), true, 24).unwrap();
    assert_eq!(t.typename(), "demo::Point");
    assert_eq!(t.shape(), &shape);
    assert_eq!(t.key_holder(), &Shape::Struct(vec![key(Shape::Scalar(Prim::U32))]));
    assert!(t.has_key());
    assert!(!t.force_md5_keyhash());
    assert_eq!(t.scheme(), KeyScheme::Raw);
    assert!(t.is_fixed_size());
    assert_eq!(t.iox_size(), 24);
    assert_eq!(t.byte_size(), 24);
}

#[test]
fn a_type_with_a_text_key_is_reduced() {
    let t = SerType::new(String::from("Named"), Shape::Struct(vec![key(Shape::Text)]), false, 24).unwrap();
    assert!(t.has_key());
    assert!(t.force_md5_keyhash());
    assert_eq!(t.scheme(), KeyScheme::Reduced);
    assert!(!t.is_fixed_size());
}

#[test]
fn a_type_with_an_unsupported_key_is_not_registered() {
    let shape = Shape::Struct(vec![key(Shape::Array(Box::new(Shape::Struct(vec![])), 1))]);
    assert_eq!(SerType::new(String::from("Bad"), shape, false, 0).err(), Some(KeyError::UnsupportedKey));
}

#[test]
fn the_size_of_a_loan_is_cut_to_32_bits() {
    let t = SerType::new(String::from("Big"), Shape::Scalar(Prim::U8), true, 0x1_0000_0005).unwrap();
    assert_eq!(t.iox_size(), 5);
    assert_eq!(t.byte_size(), 0x1_0000_0005);
    assert!(!t.has_key());
}

#[test]
fn types_are_equal_by_name_alone() {
    let a = SerType::new(String::from("A"), Shape::Scalar(Prim::U8), true, 1).unwrap();
    let same_name = SerType::new(String::from("A"), Shape::Text, false, 24).unwrap();
    let same_shape = SerType::new(String::from("B"), Shape::Scalar(Prim::U8), true, 1).unwrap();
    assert!(SerType::equal(&a, &same_name));
    assert!(!SerType::equal(&a, &same_shape));
}

#[test]
fn the_hash_of_a_type_runs_over_its_name_and_size() {
    let t = SerType::new(String::from("demo::Point"), Shape::Scalar(Prim::U8), true, 0x0102).unwrap();
    let mut input = b"demo::Point".to_vec();
    input.extend_from_slice(&[2, 1, 0, 0, 0, 0, 0, 0]);
    assert_eq!(t.hash(), murmur(&input));
    assert_eq!(t.hash(), t.hash());
    let other_size = SerType::new(String::from("demo::Point"), Shape::Scalar(Prim::U8), true, 0x0103).unwrap();
    let other_name = SerType::new(String::from("demo::Poinu"), Shape::Scalar(Prim::U8), true, 0x0102).unwrap();
    assert_ne!(t.hash(), other_size.hash());
    assert_ne!(t.hash(), other_name.hash());
}
