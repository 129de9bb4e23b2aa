use cyclonedds_rs::key;
use cyclonedds_rs::value::{Member, Prim, Shape};
use cyclonedds_rs::dds_derive::{
    build_key_holder_struct, create_keyhash_functions, is_key, is_primitive, is_primitive_type_path,
    is_variable_length, key_holder_ident, key_varies, struct_has_key, Conversion, DeriveError, Field, ItemStruct,
    KeyHolder, Path, PathSegment, Type,
};

fn name(ident: &str) -> Path {
    Path { leading_colon: false, segments: vec![PathSegment { ident: ident.to_string(), has_arguments: false }] }
}

fn path(segments: &[&str]) -> Path {
    Path {
        leading_colon: false,
        segments: segments.iter().map(|s| PathSegment { ident: s.to_string(), has_arguments: false }).collect(),
    }
}

fn generic(ident: &str) -> Path {
    Path { leading_colon: false, segments: vec![PathSegment { ident: ident.to_string(), has_arguments: true }] }
}

fn field(ident: &str, ty: Type) -> Field {
    Field { attrs: vec![], ident: Some(ident.to_string()), ty }
}

fn key_field(ident: &str, ty: Type) -> Field {
    Field { attrs: vec![name("doc"), name("topic_key")], ident: Some(ident.to_string()), ty }
}

fn written(ty: &Type) -> String {
    match ty {
        Type::Path(p) => p.segments.iter().map(|s| s.ident.as_str()).collect::<Vec<_>>().join("::"),
        Type::Array(e) => format!("[{}]", written(e)),
        Type::Other => String::from("?"),
    }
}

#[test]
fn a_path_is_an_ident_where_it_is_a_single_bare_name() {
    assert!(name("u32").is_ident("u32"));
    assert!(!name("u32").is_ident("u3"));
    assert!(!name("u32").is_ident("u321"));
    assert!(!path(&["std", "u32"]).is_ident("u32"));
    assert!(!generic("Vec").is_ident("Vec"));
    assert!(!Path { leading_colon: true, ..name("u32") }.is_ident("u32"));
    assert!(!path(&[]).is_ident(""));
}

#[test]
fn a_key_field_carries_the_attribute() {
    assert!(is_key(&key_field("id", Type::Path(name("u32")))));
    assert!(!is_key(&field("id", Type::Path(name("u32")))));
    let qualified = Field { attrs: vec![path(&["dds", "topic_key"])], ident: None, ty: Type::Other };
    assert!(!is_key(&qualified));
    let other = Field { attrs: vec![name("topic_key_enum")], ident: None, ty: Type::Other };
    assert!(!is_key(&other));
    let item = ItemStruct {
        ident: String::from("Foo"),
        fields: vec![field("x", Type::Path(name("u32"))), key_field("id", Type::Path(name("u32")))],
    };
    assert!(struct_has_key(&item));
    let none = ItemStruct { ident: String::from("Foo"), fields: vec![field("x", Type::Path(name("u32")))] };
    assert!(!struct_has_key(&none));
    assert!(!struct_has_key(&ItemStruct { ident: String::from("Foo"), fields: vec![] }));
}

#[test]
fn the_primitive_types_are_known_by_name() {
    let primitives = [
        "bool", "i8", "i16", "i32", "i64", "i128", "isize", "u8", "u16", "u32", "u64", "u128", "usize", "f32", "f64",
        "String",
    ];
    for p in primitives {
        assert!(is_primitive_type_path(&name(p)), "{}", p);
        assert!(is_primitive(&field("x", Type::Path(name(p)))));
    }
    for p in ["Vec", "char", "str", "Foo", "", "U32"] {
        assert!(!is_primitive_type_path(&name(p)), "{}", p);
    }
    assert!(!is_primitive_type_path(&path(&["std", "string", "String"])));
    assert!(!is_primitive(&field("x", Type::Array(Box::new(Type::Path(name("u8")))))));
    assert!(!is_primitive(&field("x", Type::Other)));
}

#[test]
fn a_text_has_no_fixed_length() {
    assert!(is_variable_length(&field("x", Type::Path(name("String")))));
    assert!(is_variable_length(&field("x", Type::Path(name("Vec")))));
    assert!(is_variable_length(&field("x", Type::Path(generic("Vec")))));
    assert!(!is_variable_length(&field("x", Type::Path(name("u32")))));
    assert!(!is_variable_length(&field("x", Type::Path(path(&["std", "vec", "Vec"])))));
    assert!(is_variable_length(&field("x", Type::Array(Box::new(Type::Path(name("String")))))));
    assert!(is_variable_length(&field("x", Type::Array(Box::new(Type::Path(generic("Vec")))))));
    assert!(!is_variable_length(&field("x", Type::Array(Box::new(Type::Path(name("u8")))))));
    assert!(!is_variable_length(&field("x", Type::Array(Box::new(Type::Other)))));
    assert!(!is_variable_length(&field("x", Type::Other)));
}

#[test]
fn the_key_holder_takes_the_key_fields_over() {
    let item = ItemStruct {
        ident: String::from("Foo"),
        fields: vec![
            key_field("id", Type::Path(name("i32"))),
            field("x", Type::Path(name("u32"))),
            key_field("s", Type::Path(name("String"))),
            key_field("inner", Type::Path(path(&["other", "NestedFoo"]))),
            key_field("a", Type::Array(Box::new(Type::Path(name("u8"))))),
            field("bad", Type::Other),
        ],
    };
    let holder = build_key_holder_struct(&item).ok().unwrap();
    assert_eq!(holder.ident, "FooKeyHolder_");
    assert_eq!(holder.source, "Foo");
    let fields: Vec<(String, String, Conversion)> =
        holder.fields.iter().map(|f| (f.ident.clone(), written(&f.ty), f.conversion)).collect();
    assert_eq!(
        fields,
        vec![
            (String::from("id"), String::from("i32"), Conversion::Clone),
            (String::from("s"), String::from("String"), Conversion::Clone),
            (String::from("inner"), String::from("other::NestedFooKeyHolder_"), Conversion::Into),
            (String::from("a"), String::from("[u8]"), Conversion::Clone),
        ]
    );
    let contained: Vec<String> = holder.contained_types.iter().map(written).collect();
    assert_eq!(contained, vec![String::from("other::NestedFooKeyHolder_")]);
    assert!(holder.variable_length);
    let names = create_keyhash_functions(&item);
    assert_eq!(names.topic_key_ident, "Foo");
    assert_eq!(names.topic_key_holder_ident, "FooKeyHolder_");
    assert_eq!(key_holder_ident(&String::from("Bar")), "BarKeyHolder_");
}

#[test]
fn a_structure_without_key_fields_has_an_empty_key_holder() {
    let item = ItemStruct { ident: String::from("Foo"), fields: vec![field("x", Type::Other)] };
    let holder = build_key_holder_struct(&item).ok().unwrap();
    assert!(holder.fields.is_empty() && holder.contained_types.is_empty() && !holder.variable_length);
    let fixed = ItemStruct { ident: String::from("Foo"), fields: vec![key_field("x", Type::Path(name("u64")))] };
    assert!(!build_key_holder_struct(&fixed).ok().unwrap().variable_length);
}

fn holder_of_one(ty: Type) -> KeyHolder {
    let item = ItemStruct {
        ident: String::from("Foo"),
        fields: vec![key_field("id", Type::Path(name("u32"))), key_field("k", ty), field("s", Type::Path(name("String")))],
    };
    build_key_holder_struct(&item).ok().unwrap()
}

#[test]
fn a_key_field_of_no_fixed_length_is_told_of_the_key_holder() {
    let texts = holder_of_one(Type::Array(Box::new(Type::Path(name("String")))));
    assert!(texts.variable_length);
    assert_eq!(texts.fields.len(), 2);
    assert_eq!(texts.fields[1].conversion, Conversion::Clone);
    assert_eq!(written(&texts.fields[1].ty), "[String]");
    assert!(texts.contained_types.is_empty());

    let bytes = holder_of_one(Type::Path(generic("Vec")));
    assert!(bytes.variable_length);
    assert_eq!(bytes.fields[1].conversion, Conversion::Clone);
    assert!(bytes.contained_types.is_empty());

    assert!(holder_of_one(Type::Path(name("String"))).variable_length);
    assert!(!holder_of_one(Type::Array(Box::new(Type::Path(name("u8"))))).variable_length);
    assert!(!holder_of_one(Type::Path(name("f64"))).variable_length);
    let nested = holder_of_one(Type::Path(name("Inner")));
    assert!(!nested.variable_length);
    assert_eq!(nested.contained_types.len(), 1);
}

#[test]
fn a_key_varies_where_a_part_of_it_does() {
    assert!(!key_varies(false, &[]));
    assert!(key_varies(true, &[]));
    assert!(!key_varies(false, &[false, false]));
    assert!(key_varies(false, &[false, true]));
    assert!(key_varies(false, &[true, false, false]));
    assert!(key_varies(true, &[false]));
}

fn refusal(ty: Type) -> Option<DeriveError> {
    let item = ItemStruct {
        ident: String::from("Foo"),
        fields: vec![key_field("ok", Type::Path(name("u8"))), key_field("bad", ty)],
    };
    build_key_holder_struct(&item).err()
}

#[test]
fn a_key_field_that_cannot_be_taken_over_is_refused() {
    assert_eq!(refusal(Type::Other), Some(DeriveError::UnsupportedKey));
    assert_eq!(refusal(Type::Array(Box::new(Type::Path(name("Foo"))))), Some(DeriveError::NonPrimitiveArray));
    assert_eq!(refusal(Type::Array(Box::new(Type::Other))), Some(DeriveError::UnsupportedArray));
    assert_eq!(
        refusal(Type::Array(Box::new(Type::Array(Box::new(Type::Path(name("u8"))))))),
        Some(DeriveError::UnsupportedArray)
    );
    let unnamed = ItemStruct {
        ident: String::from("Foo"),
        fields: vec![Field { attrs: vec![name("topic_key")], ident: None, ty: Type::Path(name("u8")) }],
    };
    assert_eq!(build_key_holder_struct(&unnamed).err(), Some(DeriveError::UnnamedField));
    let first = ItemStruct {
        ident: String::from("Foo"),
        fields: vec![key_field("a", Type::Other), key_field("b", Type::Array(Box::new(Type::Other)))],
    };
    assert_eq!(build_key_holder_struct(&first).err(), Some(DeriveError::UnsupportedKey));
}

fn member(key: bool, shape: Shape) -> Member {
    Member { key, shape }
}

fn bytes(n: usize) -> Shape {
    Shape::Array(Box::new(Shape::Scalar(Prim::U8)), n)
}

fn agree(item: &ItemStruct, shape: &Shape, nested: &[bool]) {
    let declared = build_key_holder_struct(item).ok().unwrap();
    let holder = key::key_holder_of(shape).unwrap();
    assert_eq!(key_varies(declared.variable_length, nested), key::is_variable_length(&holder));
    assert_eq!(declared.contained_types.len(), nested.len());
    match &holder {
        Shape::Struct(parts) => {
            assert_eq!(parts.len(), declared.fields.len());
            assert!(parts.iter().all(|part| part.key));
        }
        _ => panic!("the key holder is no structure"),
    }
    if key_varies(declared.variable_length, nested) {
        assert_eq!(key::classify(&holder), key::KeyScheme::Reduced);
        assert!(key::force_md5_keyhash(&holder));
    }
}

#[test]
fn a_declaration_and_its_shape_tell_the_same_of_the_key() {
    let inner_fixed = Shape::Struct(vec![member(true, Shape::Scalar(Prim::U32)), member(false, Shape::Text)]);
    let inner_text = Shape::Struct(vec![member(true, Shape::Text)]);
    let fixed_holder = key::key_holder_of(&inner_fixed).unwrap();
    let text_holder = key::key_holder_of(&inner_text).unwrap();
    assert!(!key::is_variable_length(&fixed_holder) && key::is_variable_length(&text_holder));

    let item = |last: Type| ItemStruct {
        ident: String::from("Foo"),
        fields: vec![
            key_field("id", Type::Path(name("i32"))),
            field("x", Type::Path(name("String"))),
            key_field("inner", Type::Path(name("Inner"))),
            key_field("last", last),
        ],
    };
    let shape = |inner: &Shape, last: Shape| {
        Shape::Struct(vec![
            member(true, Shape::Scalar(Prim::I32)),
            member(false, Shape::Text),
            member(true, inner.clone()),
            member(true, last),
        ])
    };
    let array = |of: &str| Type::Array(Box::new(Type::Path(name(of))));
    agree(&item(array("u8")), &shape(&inner_fixed, bytes(8)), &[false]);
    agree(&item(array("u8")), &shape(&inner_fixed, bytes(32)), &[false]);
    agree(&item(array("u8")), &shape(&inner_text, bytes(8)), &[true]);
    agree(&item(array("String")), &shape(&inner_fixed, Shape::Array(Box::new(Shape::Text), 2)), &[false]);
    agree(&item(Type::Path(name("String"))), &shape(&inner_fixed, Shape::Text), &[false]);
    agree(
        &item(Type::Path(generic("Vec"))),
        &shape(&inner_fixed, Shape::List(Box::new(Shape::Scalar(Prim::U8)))),
        &[false],
    );
    agree(&item(Type::Path(name("u64"))), &shape(&inner_text, Shape::Scalar(Prim::U64)), &[true]);
    agree(&item(Type::Path(name("u64"))), &shape(&inner_fixed, Shape::Scalar(Prim::U64)), &[false]);
}
