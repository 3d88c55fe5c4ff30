//! The scalar codecs on exact values, each error kind on an input that
//! provokes it, schema validation, escaping through the writer and
//! tokenizer, and the prolog-carrying entry point.

use xmlserde::api::xml_deserialize_from_str;
use xmlserde::api::xml_serialize;
use xmlserde::api::xml_serialize_with_decl;
use xmlserde::errors::XmlError;
use xmlserde::scalars::parse_scalar;
use xmlserde::scalars::print_scalar;
use xmlserde::scalars::Scalar;
use xmlserde::scalars::ScalarKind;
use xmlserde::scalars::XmlValue;
use xmlserde::schema::Arity;
use xmlserde::schema::EleType;
use xmlserde::schema::FieldSchema;
use xmlserde::schema::Payload;
use xmlserde::schema::RecordSchema;
use xmlserde::schema::SchemaError;
use xmlserde::validate::validate;
use xmlserde::values::FieldValue;
use xmlserde::values::ItemValue;
use xmlserde::values::RecordValue;

fn field(role: EleType, name: &[u8], arity: Arity, payload: Payload) -> FieldSchema {
    FieldSchema { role, name: name.to_vec(), arity, dflt: None, skip_serializing: false, payload }
}

fn rec(root: Option<&[u8]>, fields: Vec<FieldSchema>) -> RecordSchema {
    RecordSchema {
        root: root.map(|r| r.to_vec()),
        with_ns: None,
        custom_ns: Vec::new(),
        deny_unknown: false,
        fields,
    }
}

#[test]
fn bool_codec_accepts_all_literals() {
    for t in [&b"1"[..], b"true", b"TRUE", b"True"] {
        match parse_scalar(&ScalarKind::Bool, t) {
            Some(Scalar::Bool(true)) => {}
            _ => panic!("should parse as true"),
        }
    }
    for f in [&b"0"[..], b"false", b"FALSE", b"False"] {
        match parse_scalar(&ScalarKind::Bool, f) {
            Some(Scalar::Bool(false)) => {}
            _ => panic!("should parse as false"),
        }
    }
    assert!(parse_scalar(&ScalarKind::Bool, b"yes").is_none());
    assert_eq!(print_scalar(&ScalarKind::Bool, &Scalar::Bool(true)), b"1".to_vec());
    assert_eq!(print_scalar(&ScalarKind::Bool, &Scalar::Bool(false)), b"0".to_vec());
}

#[test]
fn unsigned_codec_exact() {
    assert_eq!(print_scalar(&ScalarKind::Uns, &Scalar::Uns(0)), b"0".to_vec());
    assert_eq!(print_scalar(&ScalarKind::Uns, &Scalar::Uns(18446744073709551615)), b"18446744073709551615".to_vec());
    match parse_scalar(&ScalarKind::Uns, b"12345") {
        Some(Scalar::Uns(12345)) => {}
        _ => panic!("should parse 12345"),
    }
    assert!(parse_scalar(&ScalarKind::Uns, b"").is_none());
    assert!(parse_scalar(&ScalarKind::Uns, b"12x").is_none());
    assert!(parse_scalar(&ScalarKind::Uns, b"18446744073709551616").is_none());
}

#[test]
fn signed_codec_exact() {
    assert_eq!(print_scalar(&ScalarKind::Sgn, &Scalar::Sgn(-42)), b"-42".to_vec());
    assert_eq!(
        print_scalar(&ScalarKind::Sgn, &Scalar::Sgn(i64::MIN)),
        b"-9223372036854775808".to_vec()
    );
    match parse_scalar(&ScalarKind::Sgn, b"-9223372036854775808") {
        Some(Scalar::Sgn(n)) => assert_eq!(n, i64::MIN),
        _ => panic!("should parse the minimum"),
    }
    assert!(parse_scalar(&ScalarKind::Sgn, b"-9223372036854775809").is_none());
    assert!(parse_scalar(&ScalarKind::Sgn, b"9223372036854775808").is_none());
    assert!(parse_scalar(&ScalarKind::Sgn, b"-").is_none());
}

#[test]
fn xml_value_trait_round_trip() {
    assert_eq!(true.serialize(), b"1".to_vec());
    assert_eq!(<bool as XmlValue>::deserialize(b"FaLsE").unwrap(), false);
    assert_eq!(98765u64.serialize(), b"98765".to_vec());
    assert_eq!(<u64 as XmlValue>::deserialize(b"98765").unwrap(), 98765);
    assert_eq!((-5i64).serialize(), b"-5".to_vec());
    assert_eq!(<i64 as XmlValue>::deserialize(b"-5").unwrap(), -5);
    assert!(<u64 as XmlValue>::deserialize(b"abc").is_err());
}

#[test]
fn both_flags_default_to_false_on_self_closed_parent() {
    let schema = rec(
        Some(b"font"),
        vec![
            field(EleType::SelfClosedChild, b"b", Arity::Required, Payload::Scalar(ScalarKind::Bool)),
            field(EleType::SelfClosedChild, b"i", Arity::Required, Payload::Scalar(ScalarKind::Bool)),
        ],
    );
    let v = xml_deserialize_from_str(&schema, "<font><b/><i/></font>").unwrap();
    assert!(matches!(v.fields[0], FieldValue::Flag(true)));
    assert!(matches!(v.fields[1], FieldValue::Flag(true)));
    let v = xml_deserialize_from_str(&schema, "<font/>").unwrap();
    assert!(matches!(v.fields[0], FieldValue::Flag(false)));
    assert!(matches!(v.fields[1], FieldValue::Flag(false)));
}

#[test]
fn root_not_found_error() {
    let schema = rec(
        Some(b"Person"),
        vec![field(EleType::Attr, b"age", Arity::Optional, Payload::Scalar(ScalarKind::Uns))],
    );
    match xml_deserialize_from_str(&schema, "<Other/>") {
        Err(XmlError::RootNotFound(t)) => assert_eq!(t, b"Person".to_vec()),
        _ => panic!("expected a root-not-found error"),
    }
}

#[test]
fn value_conversion_error_names_field_and_text() {
    let schema = rec(
        Some(b"Person"),
        vec![field(EleType::Attr, b"age", Arity::Required, Payload::Scalar(ScalarKind::Uns))],
    );
    match xml_deserialize_from_str(&schema, "<Person age=\"old\"/>") {
        Err(XmlError::ValueError { field, raw }) => {
            assert_eq!(field, b"age".to_vec());
            assert_eq!(raw, b"old".to_vec());
        }
        _ => panic!("expected a value-conversion error"),
    }
}

#[test]
fn missing_required_field_error() {
    let schema = rec(
        Some(b"Person"),
        vec![field(EleType::Attr, b"age", Arity::Required, Payload::Scalar(ScalarKind::Uns))],
    );
    match xml_deserialize_from_str(&schema, "<Person></Person>") {
        Err(XmlError::MissingField(t)) => assert_eq!(t, b"age".to_vec()),
        _ => panic!("expected a missing-field error"),
    }
}

#[test]
fn premature_end_of_stream_error() {
    let schema = rec(
        Some(b"a"),
        vec![field(EleType::Attr, b"x", Arity::Optional, Payload::Scalar(ScalarKind::Uns))],
    );
    match xml_deserialize_from_str(&schema, "<root><a>") {
        Err(XmlError::PrematureEnd) | Err(XmlError::Malformed) => {}
        other => panic!("expected a premature end, got {:?}", other.map(|_| ())),
    }
}

#[test]
fn unknown_field_error_names_the_tag() {
    let mut schema = rec(
        Some(b"pet"),
        vec![field(EleType::Attr, b"name", Arity::Optional, Payload::Scalar(ScalarKind::Str))],
    );
    schema.deny_unknown = true;
    match xml_deserialize_from_str(&schema, "<pet><weight/></pet>") {
        Err(XmlError::UnknownField(t)) => assert_eq!(t, b"weight".to_vec()),
        _ => panic!("expected an unknown-field error"),
    }
}

#[test]
fn unknown_subtree_is_skipped_whole_under_accept() {
    // The unknown subtree holds an element whose tag matches a declared
    // child; skipping the subtree whole must not route it.
    let c = rec(
        None,
        vec![field(EleType::Attr, b"v", Arity::Optional, Payload::Scalar(ScalarKind::Uns))],
    );
    let schema = rec(
        Some(b"r"),
        vec![field(EleType::Child, b"c", Arity::Repeated, Payload::Rec(Box::new(c)))],
    );
    let v = xml_deserialize_from_str(&schema, "<r><junk><c v=\"1\"/></junk><c v=\"2\"/></r>")
        .unwrap();
    match &v.fields[0] {
        FieldValue::Many(items) => assert_eq!(items.len(), 1),
        _ => panic!("expected a repeated field"),
    }
}

#[test]
fn schema_validation_rejects_text_next_to_children() {
    let schema = rec(
        None,
        vec![
            field(EleType::Text, b"", Arity::Required, Payload::Scalar(ScalarKind::Str)),
            field(EleType::SelfClosedChild, b"b", Arity::Required, Payload::Scalar(ScalarKind::Bool)),
        ],
    );
    assert!(matches!(validate(&schema), Err(SchemaError::TextConflict)));
}

#[test]
fn schema_validation_rejects_named_untagged() {
    let schema = rec(
        None,
        vec![field(
            EleType::UntaggedEnum,
            b"oops",
            Arity::Required,
            Payload::Uni(Box::new(xmlserde::schema::UnionSchema { variants: vec![] })),
        )],
    );
    assert!(matches!(validate(&schema), Err(SchemaError::BadName)));
}

#[test]
fn schema_validation_rejects_repeated_attr() {
    let schema = rec(
        None,
        vec![field(EleType::Attr, b"a", Arity::Repeated, Payload::Scalar(ScalarKind::Uns))],
    );
    assert!(matches!(validate(&schema), Err(SchemaError::BadArity)));
}

#[test]
fn schema_validation_rejects_bad_default() {
    let mut f = field(EleType::Attr, b"a", Arity::Required, Payload::Scalar(ScalarKind::Uns));
    f.dflt = Some(FieldValue::Flag(true));
    let schema = rec(None, vec![f]);
    assert!(matches!(validate(&schema), Err(SchemaError::BadDefault)));
}

#[test]
fn attribute_values_are_escaped_on_write_and_unescaped_on_read() {
    let schema = rec(
        Some(b"a"),
        vec![field(EleType::Attr, b"v", Arity::Required, Payload::Scalar(ScalarKind::Str))],
    );
    let v = RecordValue {
        fields: vec![FieldValue::One(ItemValue::Sc(Scalar::Str(b"x&y<z".to_vec())))],
    };
    let text = xml_serialize(&schema, &v);
    assert_eq!(text, "<a v=\"x&amp;y&lt;z\"/>");
    let back = xml_deserialize_from_str(&schema, &text).unwrap();
    match &back.fields[0] {
        FieldValue::One(ItemValue::Sc(Scalar::Str(s))) => assert_eq!(s, &b"x&y<z".to_vec()),
        _ => panic!("expected the raw value back"),
    }
}

#[test]
fn text_content_is_escaped_on_write_and_unescaped_on_read() {
    let schema = rec(
        Some(b"t"),
        vec![field(EleType::Text, b"", Arity::Required, Payload::Scalar(ScalarKind::Str))],
    );
    let v = RecordValue {
        fields: vec![FieldValue::One(ItemValue::Sc(Scalar::Str(b"a<b&c".to_vec())))],
    };
    let text = xml_serialize(&schema, &v);
    assert_eq!(text, "<t>a&lt;b&amp;c</t>");
    let back = xml_deserialize_from_str(&schema, &text).unwrap();
    match &back.fields[0] {
        FieldValue::One(ItemValue::Sc(Scalar::Str(s))) => assert_eq!(s, &b"a<b&c".to_vec()),
        _ => panic!("expected the raw text back"),
    }
}

#[test]
fn serialize_with_decl_prepends_the_prolog() {
    let schema = rec(
        Some(b"p"),
        vec![field(EleType::Attr, b"a", Arity::Optional, Payload::Scalar(ScalarKind::Uns))],
    );
    let v = RecordValue { fields: vec![FieldValue::Opt(None)] };
    assert_eq!(
        xml_serialize_with_decl(&schema, &v),
        "<?xml version=\"1.0\" encoding=\"UTF-8\" standalone=\"yes\"?><p/>"
    );
}

#[test]
fn unparsed_reinterprets_against_a_later_schema() {
    let outer = rec(
        Some(b"doc"),
        vec![field(EleType::Child, b"body", Arity::Required, Payload::Raw)],
    );
    let v = xml_deserialize_from_str(&outer, "<doc><body><item n=\"7\"/></body></doc>").unwrap();
    let item = rec(
        None,
        vec![field(EleType::Attr, b"n", Arity::Required, Payload::Scalar(ScalarKind::Uns))],
    );
    let body = rec(
        None,
        vec![field(EleType::Child, b"item", Arity::Required, Payload::Rec(Box::new(item)))],
    );
    match &v.fields[0] {
        FieldValue::One(ItemValue::Raw(u)) => {
            let r = u.deserialize_to(&body).unwrap();
            match &r.fields[0] {
                FieldValue::One(ItemValue::Rec(ir)) => match &ir.fields[0] {
                    FieldValue::One(ItemValue::Sc(Scalar::Uns(7))) => {}
                    _ => panic!("expected n to be 7"),
                },
                _ => panic!("expected the nested item"),
            }
        }
        _ => panic!("expected a captured subtree"),
    }
}

#[test]
fn fields_summary_partitions_by_role() {
    let schema = rec(
        None,
        vec![
            field(EleType::Attr, b"a", Arity::Required, Payload::Scalar(ScalarKind::Uns)),
            field(EleType::SelfClosedChild, b"f", Arity::Required, Payload::Scalar(ScalarKind::Bool)),
            field(EleType::Attr, b"b", Arity::Optional, Payload::Scalar(ScalarKind::Str)),
            field(EleType::Text, b"", Arity::Required, Payload::Scalar(ScalarKind::Str)),
        ],
    );
    let parts = xmlserde::schema::FieldsSummary::from_fields(&schema);
    assert_eq!(parts.attrs, vec![0, 2]);
    assert_eq!(parts.self_closed_children, vec![1]);
    assert_eq!(parts.text, Some(3));
    assert!(parts.children.is_empty());
    assert!(parts.untagged_enums.is_empty());
    assert!(parts.untagged_structs.is_empty());
}

#[test]
fn fixed_shape_round_trip_scenario() {
    // A record with no unparsed fields survives serialize-then-deserialize
    // unchanged.
    let schema = rec(
        Some(b"Person"),
        vec![
            field(EleType::Attr, b"age", Arity::Required, Payload::Scalar(ScalarKind::Uns)),
            field(EleType::Attr, b"nick", Arity::Optional, Payload::Scalar(ScalarKind::Str)),
            field(EleType::SelfClosedChild, b"lefty", Arity::Required, Payload::Scalar(ScalarKind::Bool)),
        ],
    );
    let v = RecordValue {
        fields: vec![
            FieldValue::One(ItemValue::Sc(Scalar::Uns(31))),
            FieldValue::Opt(Some(ItemValue::Sc(Scalar::Str(b"kim".to_vec())))),
            FieldValue::Flag(true),
        ],
    };
    let text = xml_serialize(&schema, &v);
    let back = xml_deserialize_from_str(&schema, &text).unwrap();
    assert!(xmlserde::eq::record_eq(&v, &back));
    assert_eq!(text, xml_serialize(&schema, &back));
}
