//! The engine exercised end to end over concrete schemas: attributes,
//! text, self-closing flags, children, defaults, namespaces, untagged
//! unions and structs, unparsed passthrough and the unknown-field policy.

use xmlserde::scalars::Scalar;
use xmlserde::scalars::ScalarKind;
use xmlserde::schema::Arity;
use xmlserde::schema::EleType;
use xmlserde::schema::FieldSchema;
use xmlserde::schema::Payload;
use xmlserde::schema::RecordSchema;
use xmlserde::schema::UnionSchema;
use xmlserde::schema::VariantKind;
use xmlserde::schema::VariantSchema;
use xmlserde::api::xml_deserialize_from_str;
use xmlserde::api::xml_serialize;
use xmlserde::validate::validate;
use xmlserde::values::FieldValue;
use xmlserde::values::ItemValue;
use xmlserde::values::RecordValue;
use xmlserde::values::UnionValue;

fn field(role: EleType, name: &[u8], arity: Arity, payload: Payload) -> FieldSchema {
    FieldSchema { role, name: name.to_vec(), arity, dflt: None, skip_serializing: false, payload }
}

fn rec(root: Option<&[u8]>, fields: Vec<FieldSchema>) -> RecordSchema {
    RecordSchema {
        root: root.map(|r| r.to_vec()),
        with_ns: None,
        custom_ns: Vec::new(),
        deny_unknown: false,
        fields,
    }
}

fn uns(n: u64) -> FieldValue {
    FieldValue::One(ItemValue::Sc(Scalar::Uns(n)))
}

fn text_val(s: &[u8]) -> FieldValue {
    FieldValue::One(ItemValue::Sc(Scalar::Str(s.to_vec())))
}

fn get_u64(v: &RecordValue, i: usize) -> u64 {
    match &v.fields[i] {
        FieldValue::One(ItemValue::Sc(Scalar::Uns(n))) => *n,
        _ => panic!("expected an unsigned scalar"),
    }
}

fn get_bool_flag(v: &RecordValue, i: usize) -> bool {
    match &v.fields[i] {
        FieldValue::Flag(b) => *b,
        _ => panic!("expected a flag"),
    }
}

fn get_str(v: &RecordValue, i: usize) -> Vec<u8> {
    match &v.fields[i] {
        FieldValue::One(ItemValue::Sc(Scalar::Str(s))) => s.clone(),
        _ => panic!("expected a string scalar"),
    }
}

fn person_age_name() -> RecordSchema {
    rec(
        Some(b"Person"),
        vec![
            field(EleType::Attr, b"age", Arity::Required, Payload::Scalar(ScalarKind::Uns)),
            field(EleType::Text, b"", Arity::Required, Payload::Scalar(ScalarKind::Str)),
        ],
    )
}

#[test]
fn xml_serde_enum_test() {
    let table = vec![b"male".to_vec(), b"female".to_vec()];
    let k = ScalarKind::Choice(table);
    let printed = xmlserde::scalars::print_scalar(&k, &Scalar::Choice(0));
    assert_eq!(printed, b"male".to_vec());
    match xmlserde::scalars::parse_scalar(&k, b"female") {
        Some(Scalar::Choice(i)) => assert_eq!(i, 1),
        _ => panic!("female should map to the second choice"),
    }
    assert!(xmlserde::scalars::parse_scalar(&k, b"other").is_none());
}

#[test]
fn default_for_child() {
    // A child record with an explicit default: whitespace-only content
    // leaves it at the default, and a default-valued child is skipped on
    // serialization.
    let properties = rec(
        None,
        vec![field(EleType::Attr, b"name", Arity::Optional, Payload::Scalar(ScalarKind::Str))],
    );
    let default_value = FieldValue::One(ItemValue::Rec(Box::new(RecordValue {
        fields: vec![FieldValue::Opt(None)],
    })));
    let mut namespace_field =
        field(EleType::Child, b"namespace", Arity::Required, Payload::Rec(Box::new(properties)));
    namespace_field.dflt = Some(default_value);
    let schema = rec(Some(b"test"), vec![namespace_field]);
    assert!(validate(&schema).is_ok());
    let v = xml_deserialize_from_str(&schema, "<test><namespace>\n        </namespace></test>")
        .unwrap();
    match &v.fields[0] {
        FieldValue::One(ItemValue::Rec(r)) => match &r.fields[0] {
            FieldValue::Opt(None) => {}
            _ => panic!("namespace should have kept its default"),
        },
        _ => panic!("expected a child record"),
    }
    assert_eq!(xml_serialize(&schema, &v), "<test/>");
}

#[test]
fn self_closed_boolean_child() {
    let schema = rec(
        Some(b"font"),
        vec![
            field(EleType::Attr, b"size", Arity::Required, Payload::Scalar(ScalarKind::Str)),
            field(EleType::SelfClosedChild, b"b", Arity::Required, Payload::Scalar(ScalarKind::Bool)),
            field(EleType::SelfClosedChild, b"i", Arity::Required, Payload::Scalar(ScalarKind::Bool)),
        ],
    );
    let v = xml_deserialize_from_str(
        &schema,
        "<font size=\"12.2\">\n            <b/>\n            <i/>\n        </font>",
    )
    .unwrap();
    assert_eq!(get_str(&v, 0), b"12.2".to_vec());
    assert!(get_bool_flag(&v, 1));
    assert!(get_bool_flag(&v, 2));
}

#[test]
fn derive_deserialize_vec_with_init_size_from_attr() {
    let child = rec(
        None,
        vec![
            field(EleType::Attr, b"age", Arity::Required, Payload::Scalar(ScalarKind::Uns)),
            field(EleType::Text, b"", Arity::Required, Payload::Scalar(ScalarKind::Str)),
        ],
    );
    let mut cnt = field(EleType::Attr, b"cnt", Arity::Required, Payload::Scalar(ScalarKind::Uns));
    cnt.dflt = Some(uns(0));
    let schema = rec(
        Some(b"root"),
        vec![cnt, field(EleType::Child, b"f", Arity::Repeated, Payload::Rec(Box::new(child)))],
    );
    let v = xml_deserialize_from_str(
        &schema,
        "<root cnt=\"2\"><f age=\"15\"> Tom</f><f age=\"9\">Jerry</f></root>",
    )
    .unwrap();
    assert_eq!(get_u64(&v, 0), 2);
    match &v.fields[1] {
        FieldValue::Many(items) => {
            assert_eq!(items.len(), 2);
            match (&items[0], &items[1]) {
                (ItemValue::Rec(a), ItemValue::Rec(b)) => {
                    assert_eq!(get_u64(a, 0), 15);
                    assert_eq!(get_str(a, 1), b" Tom".to_vec());
                    assert_eq!(get_u64(b, 0), 9);
                    assert_eq!(get_str(b, 1), b"Jerry".to_vec());
                }
                _ => panic!("expected records"),
            }
        }
        _ => panic!("expected a repeated field"),
    }
}

#[test]
fn derive_deserialize_vec_with_init_size() {
    let child = rec(
        None,
        vec![
            field(EleType::Attr, b"age", Arity::Required, Payload::Scalar(ScalarKind::Uns)),
            field(EleType::Text, b"", Arity::Required, Payload::Scalar(ScalarKind::Str)),
        ],
    );
    let mut cnt = field(EleType::Attr, b"cnt", Arity::Required, Payload::Scalar(ScalarKind::Uns));
    cnt.dflt = Some(uns(0));
    let schema = rec(
        Some(b"root"),
        vec![cnt, field(EleType::Child, b"child", Arity::Repeated, Payload::Rec(Box::new(child)))],
    );
    let v = xml_deserialize_from_str(
        &schema,
        "<root><child age=\"10\">a</child><child age=\"10\">b</child></root>",
    )
    .unwrap();
    match &v.fields[1] {
        FieldValue::Many(items) => assert_eq!(items.len(), 2),
        _ => panic!("expected a repeated field"),
    }
}

#[test]
fn serialize_attr_and_text() {
    let schema = rec(
        Some(b"Person"),
        vec![
            field(EleType::Attr, b"age", Arity::Required, Payload::Scalar(ScalarKind::Uns)),
            field(EleType::Attr, b"male", Arity::Required, Payload::Scalar(ScalarKind::Bool)),
            field(EleType::Text, b"", Arity::Required, Payload::Scalar(ScalarKind::Str)),
        ],
    );
    let v = RecordValue {
        fields: vec![uns(12), FieldValue::One(ItemValue::Sc(Scalar::Bool(true))), text_val(b"Tom")],
    };
    assert_eq!(xml_serialize(&schema, &v), "<Person age=\"12\" male=\"1\">Tom</Person>");
}

#[test]
fn serialize_attr_and_sfc() {
    let schema = rec(
        Some(b"Person"),
        vec![
            field(EleType::Attr, b"age", Arity::Required, Payload::Scalar(ScalarKind::Uns)),
            field(EleType::SelfClosedChild, b"male", Arity::Required, Payload::Scalar(ScalarKind::Bool)),
            field(EleType::SelfClosedChild, b"lefty", Arity::Required, Payload::Scalar(ScalarKind::Bool)),
        ],
    );
    let v = RecordValue { fields: vec![uns(16), FieldValue::Flag(false), FieldValue::Flag(true)] };
    assert_eq!(xml_serialize(&schema, &v), "<Person age=\"16\"><lefty/></Person>");
}

#[test]
fn serialize_children() {
    let skills = rec(
        None,
        vec![
            field(EleType::Attr, b"eng", Arity::Required, Payload::Scalar(ScalarKind::Bool)),
            field(EleType::SelfClosedChild, b"jap", Arity::Required, Payload::Scalar(ScalarKind::Bool)),
        ],
    );
    let schema = rec(
        Some(b"Person"),
        vec![
            field(EleType::Attr, b"age", Arity::Required, Payload::Scalar(ScalarKind::Uns)),
            field(EleType::Child, b"skills", Arity::Required, Payload::Rec(Box::new(skills))),
        ],
    );
    let v = RecordValue {
        fields: vec![
            uns(32),
            FieldValue::One(ItemValue::Rec(Box::new(RecordValue {
                fields: vec![
                    FieldValue::One(ItemValue::Sc(Scalar::Bool(false))),
                    FieldValue::Flag(true),
                ],
            }))),
        ],
    };
    assert_eq!(
        xml_serialize(&schema, &v),
        "<Person age=\"32\"><skills eng=\"0\"><jap/></skills></Person>"
    );
}

#[test]
fn serialize_opt_attr() {
    let schema = rec(
        Some(b"Person"),
        vec![field(EleType::Attr, b"age", Arity::Optional, Payload::Scalar(ScalarKind::Uns))],
    );
    let some = RecordValue {
        fields: vec![FieldValue::Opt(Some(ItemValue::Sc(Scalar::Uns(2))))],
    };
    let none = RecordValue { fields: vec![FieldValue::Opt(None)] };
    assert_eq!(xml_serialize(&schema, &some), "<Person age=\"2\"/>");
    assert_eq!(xml_serialize(&schema, &none), "<Person/>");
}

#[test]
fn deserialize_opt_attr() {
    let schema = rec(
        Some(b"Person"),
        vec![field(EleType::Attr, b"age", Arity::Optional, Payload::Scalar(ScalarKind::Uns))],
    );
    let v = xml_deserialize_from_str(&schema, "<Person age=\"2\"></Person>").unwrap();
    match &v.fields[0] {
        FieldValue::Opt(Some(ItemValue::Sc(Scalar::Uns(2)))) => {}
        _ => panic!("expected age 2"),
    }
}

#[test]
fn deserialize_default() {
    let mut age = field(EleType::Attr, b"age", Arity::Required, Payload::Scalar(ScalarKind::Uns));
    age.dflt = Some(uns(12));
    let schema = rec(
        Some(b"Person"),
        vec![age, field(EleType::Text, b"", Arity::Required, Payload::Scalar(ScalarKind::Str))],
    );
    let v = xml_deserialize_from_str(&schema, "<Person>Tom</Person>").unwrap();
    assert_eq!(get_u64(&v, 0), 12);
    assert_eq!(get_str(&v, 1), b"Tom".to_vec());
}

#[test]
fn serialize_skip_default() {
    let mut age = field(EleType::Attr, b"age", Arity::Required, Payload::Scalar(ScalarKind::Uns));
    age.dflt = Some(uns(12));
    let schema = rec(
        Some(b"Person"),
        vec![age, field(EleType::Text, b"", Arity::Required, Payload::Scalar(ScalarKind::Str))],
    );
    let v = RecordValue { fields: vec![uns(12), text_val(b"Tom")] };
    assert_eq!(xml_serialize(&schema, &v), "<Person>Tom</Person>");
}

#[test]
fn serialize_with_ns() {
    let mut schema = person_age_name();
    schema.with_ns = Some(b"namespace".to_vec());
    let v = RecordValue { fields: vec![uns(12), text_val(b"Tom")] };
    assert_eq!(xml_serialize(&schema, &v), "<Person xmlns=\"namespace\" age=\"12\">Tom</Person>");
}

#[test]
fn scf_and_child_test() {
    let c = rec(
        None,
        vec![field(EleType::Attr, b"age", Arity::Required, Payload::Scalar(ScalarKind::Uns))],
    );
    let schema = rec(
        Some(b"Person"),
        vec![
            field(EleType::SelfClosedChild, b"lefty", Arity::Required, Payload::Scalar(ScalarKind::Bool)),
            field(EleType::Child, b"c", Arity::Required, Payload::Rec(Box::new(c))),
        ],
    );
    let v = xml_deserialize_from_str(&schema, "<Person><lefty/><c age=\"12\"/></Person>").unwrap();
    assert_eq!(xml_serialize(&schema, &v), "<Person><lefty/><c age=\"12\"/></Person>");
}

#[test]
fn custom_ns_test() {
    let mut schema = rec(
        Some(b"Child"),
        vec![field(EleType::Attr, b"age", Arity::Required, Payload::Scalar(ScalarKind::Uns))],
    );
    schema.custom_ns = vec![xmlserde::events::XmlAttr { name: b"a".to_vec(), value: b"c".to_vec() }];
    let v = RecordValue { fields: vec![uns(12)] };
    assert_eq!(xml_serialize(&schema, &v), "<Child xmlns:a=\"c\" age=\"12\"/>");
}

#[test]
fn enum_serialize_test() {
    let test_a = rec(
        None,
        vec![field(EleType::Attr, b"age", Arity::Required, Payload::Scalar(ScalarKind::Uns))],
    );
    let test_b = rec(
        None,
        vec![field(EleType::Attr, b"name", Arity::Required, Payload::Scalar(ScalarKind::Str))],
    );
    let union = UnionSchema {
        variants: vec![
            VariantSchema { tag: b"testA".to_vec(), kind: VariantKind::Rec(Box::new(test_a)) },
            VariantSchema { tag: b"testB".to_vec(), kind: VariantKind::Rec(Box::new(test_b)) },
        ],
    };
    let schema = rec(
        Some(b"Child"),
        vec![field(EleType::Child, b"dummy", Arity::Required, Payload::Uni(Box::new(union)))],
    );
    let v = RecordValue {
        fields: vec![FieldValue::One(ItemValue::Uni(Box::new(UnionValue {
            variant: 0,
            payload: Some(ItemValue::Rec(Box::new(RecordValue { fields: vec![uns(23)] }))),
        })))],
    };
    let s = xml_serialize(&schema, &v);
    assert_eq!(s, "<Child><dummy><testA age=\"23\"/></dummy></Child>");
    let back = xml_deserialize_from_str(&schema, &s).unwrap();
    match &back.fields[0] {
        FieldValue::One(ItemValue::Uni(u)) => {
            assert_eq!(u.variant, 0);
            match &u.payload {
                Some(ItemValue::Rec(r)) => assert_eq!(get_u64(r, 0), 23),
                _ => panic!("expected the record payload"),
            }
        }
        _ => panic!("expected the union value"),
    }
}

#[test]
fn unparsed_serde_test() {
    let schema = rec(
        Some(b"TestA"),
        vec![field(EleType::Child, b"others", Arity::Required, Payload::Raw)],
    );
    let xml = "<TestA><others age=\"16\" name=\"Tom\"><gf/><parent><f/><m name=\"Lisa\">1999</m></parent></others></TestA>";
    let v = xml_deserialize_from_str(&schema, xml).unwrap();
    assert_eq!(xml_serialize(&schema, &v), xml);
}

fn untag_union() -> UnionSchema {
    let a1 = rec(
        None,
        vec![field(EleType::Attr, b"aAttr", Arity::Required, Payload::Scalar(ScalarKind::Uns))],
    );
    let b1 = rec(
        None,
        vec![field(EleType::Attr, b"bAttr", Arity::Required, Payload::Scalar(ScalarKind::Uns))],
    );
    UnionSchema {
        variants: vec![
            VariantSchema { tag: b"a".to_vec(), kind: VariantKind::Rec(Box::new(a1)) },
            VariantSchema { tag: b"b".to_vec(), kind: VariantKind::Rec(Box::new(b1)) },
        ],
    }
}

fn untagged_variant(v: &FieldValue) -> (usize, u64) {
    let item = match v {
        FieldValue::One(it) => it,
        FieldValue::Opt(Some(it)) => it,
        _ => panic!("expected a present untagged value"),
    };
    untagged_item(item)
}

fn untagged_item(item: &ItemValue) -> (usize, u64) {
    match item {
        ItemValue::Uni(u) => match &u.payload {
            Some(ItemValue::Rec(r)) => (u.variant, get_u64(r, 0)),
            _ => panic!("expected a record payload"),
        },
        _ => panic!("expected a union value"),
    }
}

#[test]
fn untag_serde_test() {
    let schema = rec(
        Some(b"Root"),
        vec![field(EleType::Untag, b"", Arity::Required, Payload::Uni(Box::new(untag_union())))],
    );
    let xml = "<Root><a aAttr=\"3\"/></Root>";
    let v = xml_deserialize_from_str(&schema, xml).unwrap();
    assert_eq!(untagged_variant(&v.fields[0]), (0, 3));
    assert_eq!(xml_serialize(&schema, &v), xml);
}

#[test]
fn vec_untag_serde_test() {
    let schema = rec(
        Some(b"Root"),
        vec![field(EleType::Untag, b"", Arity::Repeated, Payload::Uni(Box::new(untag_union())))],
    );
    let xml = "<Root><a aAttr=\"3\"/><b bAttr=\"5\"/><a aAttr=\"4\"/></Root>";
    let v = xml_deserialize_from_str(&schema, xml).unwrap();
    match &v.fields[0] {
        FieldValue::Many(items) => {
            assert_eq!(items.len(), 3);
            assert_eq!(untagged_item(&items[0]), (0, 3));
            assert_eq!(untagged_item(&items[1]), (1, 5));
            assert_eq!(untagged_item(&items[2]), (0, 4));
        }
        _ => panic!("expected a repeated field"),
    }
    assert_eq!(xml_serialize(&schema, &v), xml);
}

#[test]
fn option_untag_serde_test() {
    let schema = rec(
        Some(b"Root"),
        vec![field(EleType::Untag, b"", Arity::Optional, Payload::Uni(Box::new(untag_union())))],
    );
    let none = xml_deserialize_from_str(&schema, "<Root/>").unwrap();
    assert!(matches!(none.fields[0], FieldValue::Opt(None)));
    let some = xml_deserialize_from_str(&schema, "<Root><a aAttr=\"3\"/></Root>").unwrap();
    assert_eq!(untagged_variant(&some.fields[0]), (0, 3));
    assert_eq!(xml_serialize(&schema, &none), "<Root/>");
}

#[test]
fn ser_opt_text() {
    let schema = rec(
        Some(b"ttt"),
        vec![field(EleType::Text, b"", Arity::Optional, Payload::Scalar(ScalarKind::Str))],
    );
    let v = RecordValue {
        fields: vec![FieldValue::Opt(Some(ItemValue::Sc(Scalar::Str(b"hello world!".to_vec()))))],
    };
    assert_eq!(xml_serialize(&schema, &v), "<ttt>hello world!</ttt>");
}

#[test]
fn test_generics() {
    // The schema is shared data: one union description drives any number
    // of records that point at it.
    let schema = rec(
        Some(b"Root"),
        vec![field(
            EleType::UntaggedEnum,
            b"",
            Arity::Optional,
            Payload::Uni(Box::new(UnionSchema {
                variants: vec![VariantSchema {
                    tag: b"".to_vec(),
                    kind: VariantKind::Text(ScalarKind::Str),
                }],
            })),
        )],
    );
    let _ = xml_deserialize_from_str(&schema, "<Root>ttt</Root>").unwrap();
}

fn parameter_schema() -> RecordSchema {
    let ty = rec(
        None,
        vec![field(EleType::Attr, b"name", Arity::Required, Payload::Scalar(ScalarKind::Str))],
    );
    let union = UnionSchema {
        variants: vec![
            VariantSchema { tag: b"varargs".to_vec(), kind: VariantKind::Unit },
            VariantSchema { tag: b"type".to_vec(), kind: VariantKind::Rec(Box::new(ty)) },
            VariantSchema { tag: b"".to_vec(), kind: VariantKind::Text(ScalarKind::Str) },
        ],
    };
    rec(
        Some(b"parameter"),
        vec![field(EleType::UntaggedEnum, b"", Arity::Required, Payload::Uni(Box::new(union)))],
    )
}

#[test]
fn test_untag_enum_no_type_child_and_text() {
    let schema = parameter_schema();
    let v = xml_deserialize_from_str(&schema, "<parameter><varargs /></parameter>").unwrap();
    match &v.fields[0] {
        FieldValue::One(ItemValue::Uni(u)) => {
            assert_eq!(u.variant, 0);
            assert!(u.payload.is_none());
        }
        _ => panic!("expected the unit variant"),
    }
    assert_eq!(xml_serialize(&schema, &v), "<parameter><varargs/></parameter>");
    let v = xml_deserialize_from_str(&schema, "<parameter><type name=\"n\"/></parameter>").unwrap();
    match &v.fields[0] {
        FieldValue::One(ItemValue::Uni(u)) => {
            assert_eq!(u.variant, 1);
            match &u.payload {
                Some(ItemValue::Rec(r)) => assert_eq!(get_str(r, 0), b"n".to_vec()),
                _ => panic!("expected a record payload"),
            }
        }
        _ => panic!("expected the record variant"),
    }
    assert_eq!(xml_serialize(&schema, &v), "<parameter><type name=\"n\"/></parameter>");
    let v = xml_deserialize_from_str(&schema, "<parameter>ttttt</parameter>").unwrap();
    match &v.fields[0] {
        FieldValue::One(ItemValue::Uni(u)) => {
            assert_eq!(u.variant, 2);
            match &u.payload {
                Some(ItemValue::Sc(Scalar::Str(s))) => assert_eq!(s, &b"ttttt".to_vec()),
                _ => panic!("expected a text payload"),
            }
        }
        _ => panic!("expected the text variant"),
    }
}

#[test]
fn test_untag_enum_vec_and_text() {
    let span = rec(
        None,
        vec![field(EleType::Text, b"", Arity::Required, Payload::Scalar(ScalarKind::Str))],
    );
    let union = UnionSchema {
        variants: vec![
            VariantSchema { tag: b"text:span".to_vec(), kind: VariantKind::Rec(Box::new(span)) },
            VariantSchema { tag: b"".to_vec(), kind: VariantKind::Text(ScalarKind::Str) },
        ],
    };
    let schema = rec(
        Some(b"text:p"),
        vec![field(EleType::UntaggedEnum, b"", Arity::Repeated, Payload::Uni(Box::new(union)))],
    );
    let v = xml_deserialize_from_str(
        &schema,
        "<text:p><text:span> text1 </text:span><text:span>text2</text:span></text:p>",
    )
    .unwrap();
    match &v.fields[0] {
        FieldValue::Many(items) => {
            assert_eq!(items.len(), 2);
            match (&items[0], &items[1]) {
                (ItemValue::Uni(a), ItemValue::Uni(b)) => {
                    assert_eq!(a.variant, 0);
                    assert_eq!(b.variant, 0);
                    match (&a.payload, &b.payload) {
                        (Some(ItemValue::Rec(r1)), Some(ItemValue::Rec(r2))) => {
                            assert_eq!(get_str(r1, 0), b" text1 ".to_vec());
                            assert_eq!(get_str(r2, 0), b"text2".to_vec());
                        }
                        _ => panic!("expected record payloads"),
                    }
                }
                _ => panic!("expected union items"),
            }
        }
        _ => panic!("expected a repeated field"),
    }
    let v = xml_deserialize_from_str(&schema, "<text:p>abcdefg</text:p>").unwrap();
    match &v.fields[0] {
        FieldValue::Many(items) => {
            assert_eq!(items.len(), 1);
            match &items[0] {
                ItemValue::Uni(u) => match &u.payload {
                    Some(ItemValue::Sc(Scalar::Str(s))) => assert_eq!(s, &b"abcdefg".to_vec()),
                    _ => panic!("expected text"),
                },
                _ => panic!("expected a union item"),
            }
        }
        _ => panic!("expected a repeated field"),
    }
}

fn pet_schema(deny: bool) -> RecordSchema {
    let mut s = rec(
        Some(b"pet"),
        vec![field(EleType::Attr, b"name", Arity::Required, Payload::Scalar(ScalarKind::Str))],
    );
    s.deny_unknown = deny;
    s
}

#[test]
#[should_panic]
fn test_unknown_fields_in_struct_deny_unknown_attr() {
    let schema = pet_schema(true);
    xml_deserialize_from_str(&schema, "<pet name=\"Chaplin\" age=\"1\"/>").unwrap();
}

#[test]
fn test_unknown_fields_in_struct_accept_unknown_attr() {
    let schema = pet_schema(false);
    let v = xml_deserialize_from_str(&schema, "<pet name=\"Chaplin\" age=\"1\"/>").unwrap();
    assert_eq!(get_str(&v, 0), b"Chaplin".to_vec());
}

#[test]
#[should_panic]
fn test_unknown_fields_in_struct_deny_unknown_field() {
    let schema = pet_schema(true);
    xml_deserialize_from_str(&schema, "<pet name=\"Chaplin\"><weight/></pet>").unwrap();
}

#[test]
fn test_unknown_fields_in_struct_accept_unknown_field() {
    let schema = pet_schema(false);
    let v = xml_deserialize_from_str(&schema, "<pet name=\"Chaplin\"><weight/></pet>").unwrap();
    assert_eq!(get_str(&v, 0), b"Chaplin".to_vec());
}

#[test]
fn test_issue_52() {
    let union = UnionSchema {
        variants: vec![VariantSchema { tag: b"Bar".to_vec(), kind: VariantKind::Unit }],
    };
    let schema = rec(
        Some(b"root"),
        vec![
            field(EleType::Attr, b"header", Arity::Required, Payload::Scalar(ScalarKind::Str)),
            field(EleType::Untag, b"", Arity::Required, Payload::Uni(Box::new(union))),
        ],
    );
    let v = xml_deserialize_from_str(&schema, "<root header=\"\"><Bar/></root>").unwrap();
    assert_eq!(get_str(&v, 0), b"".to_vec());
}

#[test]
fn test_de_untagged_struct() {
    let a = rec(
        None,
        vec![field(EleType::Attr, b"attr1", Arity::Required, Payload::Scalar(ScalarKind::Uns))],
    );
    let c = rec(
        None,
        vec![field(EleType::Attr, b"attr2", Arity::Required, Payload::Scalar(ScalarKind::Uns))],
    );
    let absorber = rec(
        None,
        vec![
            field(EleType::Child, b"a", Arity::Required, Payload::Rec(Box::new(a))),
            field(EleType::Child, b"c", Arity::Required, Payload::Rec(Box::new(c))),
        ],
    );
    let schema = rec(
        Some(b"foo"),
        vec![field(EleType::UntaggedStruct, b"", Arity::Optional, Payload::Rec(Box::new(absorber)))],
    );
    assert!(validate(&schema).is_ok());
    let v = xml_deserialize_from_str(&schema, "<foo><a attr1=\"12\"/><c attr2=\"200\"/></foo>")
        .unwrap();
    match &v.fields[0] {
        FieldValue::Opt(Some(ItemValue::Rec(r))) => {
            match &r.fields[0] {
                FieldValue::One(ItemValue::Rec(ar)) => assert_eq!(get_u64(ar, 0), 12),
                _ => panic!("expected the first absorbed child"),
            }
            match &r.fields[1] {
                FieldValue::One(ItemValue::Rec(cr)) => assert_eq!(get_u64(cr, 0), 200),
                _ => panic!("expected the second absorbed child"),
            }
        }
        _ => panic!("expected the untagged struct to be filled"),
    }
    let empty = xml_deserialize_from_str(&schema, "<foo>></foo>").unwrap();
    assert!(matches!(empty.fields[0], FieldValue::Opt(None)));
}
