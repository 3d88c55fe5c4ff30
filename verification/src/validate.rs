//! Schema validation and value/schema fit checks.
//!
//! [`validate`] runs once over a schema before it is shared: it returns
//! `Ok` exactly when the schema is well formed, and a [`SchemaError`]
//! naming the first offence otherwise. The `check_*_fits`
//! functions decide whether a value has the shape a schema describes.

use vstd::prelude::*;

use crate::scalars::Scalar;
use crate::scalars::ScalarKind;
use crate::scalars::scalar_fits;
use crate::schema::Arity;
use crate::schema::EleType;
use crate::schema::FieldSchema;
use crate::schema::Payload;
use crate::schema::RecordSchema;
use crate::schema::SchemaError;
use crate::schema::UnionSchema;
use crate::schema::VariantKind;
use crate::schema::children_only;
use crate::schema::field_fits;
use crate::schema::item_fits;
use crate::schema::record_fits;
use crate::schema::role_in_body;
use crate::schema::union_fits;
use crate::schema::wf_field;
use crate::schema::wf_record;
use crate::schema::wf_union;
use crate::values::FieldValue;
use crate::values::ItemValue;
use crate::values::RecordValue;
use crate::values::UnionValue;
use crate::values::lemma_fields_model;
use crate::values::lemma_items_model;

verus! {

/// A scalar has the kind the schema asks for.
pub fn check_scalar_fits(k: &ScalarKind, v: &Scalar) -> (r: bool)
    ensures
        r == scalar_fits(*k, v@),
{
    match (k, v) {
        (ScalarKind::Bool, Scalar::Bool(_)) => true,
        (ScalarKind::Uns, Scalar::Uns(_)) => true,
        (ScalarKind::Sgn, Scalar::Sgn(_)) => true,
        (ScalarKind::Str, Scalar::Str(_)) => true,
        (ScalarKind::Choice(t), Scalar::Choice(i)) => *i < t.len(),
        _ => false,
    }
}

/// An item has the shape the payload description asks for.
pub fn check_item_fits(p: &Payload, v: &ItemValue) -> (r: bool)
    ensures
        r == item_fits(*p, v@),
    decreases v,
{
    match (p, v) {
        (Payload::Scalar(k), ItemValue::Sc(s)) => check_scalar_fits(k, s),
        (Payload::Rec(s), ItemValue::Rec(rv)) => check_record_fits(s, rv),
        (Payload::Uni(u), ItemValue::Uni(uv)) => check_union_fits(u, uv),
        (Payload::Raw, ItemValue::Raw(_)) => true,
        _ => false,
    }
}

/// A union value picks a variant of the union schema and carries the
/// payload that variant asks for.
pub fn check_union_fits(u: &UnionSchema, v: &UnionValue) -> (r: bool)
    ensures
        r == union_fits(*u, v@),
    decreases v,
{
    if v.variant >= u.variants.len() {
        return false;
    }
    match (&u.variants[v.variant].kind, &v.payload) {
        (VariantKind::Unit, None) => true,
        (VariantKind::Rec(s), Some(ItemValue::Rec(rv))) => check_record_fits(s, rv),
        (VariantKind::Text(k), Some(ItemValue::Sc(sv))) => check_scalar_fits(k, sv),
        _ => false,
    }
}

/// A field value has the arity shape and item payload its field schema
/// asks for.
pub fn check_field_fits(f: &FieldSchema, v: &FieldValue) -> (r: bool)
    ensures
        r == field_fits(*f, v@),
    decreases v,
{
    if matches!(f.role, EleType::SelfClosedChild) {
        return matches!(v, FieldValue::Flag(_));
    }
    match (&f.arity, v) {
        (Arity::Required, FieldValue::One(m)) => check_item_fits(&f.payload, m),
        (Arity::Optional, FieldValue::Opt(o)) => {
            match o {
                Some(m) => check_item_fits(&f.payload, m),
                None => true,
            }
        },
        (Arity::Repeated, FieldValue::Many(ms)) => {
            let mut i: usize = 0;
            while i < ms.len()
                invariant
                    0 <= i <= ms.len(),
                    forall|j: int|
                        0 <= j < i ==> item_fits(f.payload, crate::values::item_model(
                            #[trigger] ms@[j],
                        )),
                decreases ms.len() - i,
            {
                if !check_item_fits(&f.payload, &ms[i]) {
                    proof {
                        lemma_items_model(ms@);
                        assert(v@ == crate::values::FieldM::Many(crate::values::items_model(ms@)));
                        let msm = crate::values::items_model(ms@);
                        assert(msm[i as int] == crate::values::item_model(ms@[i as int]));
                        assert(!item_fits(f.payload, msm[i as int]));
                        assert(!crate::schema::items_fit(f.payload, msm));
                        assert(!field_fits(*f, v@));
                    }
                    return false;
                }
                i += 1;
            }
            proof {
                lemma_items_model(ms@);
            }
            true
        },
        _ => false,
    }
}

/// A record value has one fitting field value per field schema.
pub fn check_record_fits(s: &RecordSchema, v: &RecordValue) -> (r: bool)
    ensures
        r == record_fits(*s, v@),
    decreases v,
{
    proof {
        lemma_fields_model(v.fields@);
    }
    if v.fields.len() != s.fields.len() {
        return false;
    }
    let mut i: usize = 0;
    while i < v.fields.len()
        invariant
            0 <= i <= v.fields.len(),
            forall|j: int|
                0 <= j < i ==> field_fits(s.fields@[j], crate::values::field_model(
                    #[trigger] v.fields@[j],
                )),
        decreases v.fields.len() - i,
    {
        if !check_field_fits(&s.fields[i], &v.fields[i]) {
            proof {
                lemma_fields_model(v.fields@);
                assert(crate::values::fields_model(v.fields@)[i as int] == crate::values::field_model(
                    v.fields@[i as int],
                ));
                assert(!field_fits(s.fields@[i as int], crate::values::fields_model(v.fields@)[i as int]));
                assert(!crate::schema::fields_fit(*s, crate::values::fields_model(v.fields@)));
                assert(!record_fits(*s, v@));
            }
            return false;
        }
        i += 1;
    }
    true
}

/// Validate one field schema, including recursion into nested payload
/// schemas and the fit of an explicit default.
pub fn validate_field(f: &FieldSchema) -> (r: Result<(), SchemaError>)
    ensures
        r is Ok <==> wf_field(*f),
    decreases f,
{
    let role_ok: Result<(), SchemaError> = match f.role {
        EleType::Attr => {
            if f.name.len() == 0 {
                Err(SchemaError::BadName)
            } else if matches!(f.arity, Arity::Repeated) {
                Err(SchemaError::BadArity)
            } else if !matches!(f.payload, Payload::Scalar(_)) {
                Err(SchemaError::BadPayload)
            } else {
                Ok(())
            }
        },
        EleType::Child => {
            if f.name.len() == 0 {
                Err(SchemaError::BadName)
            } else {
                match &f.payload {
                    Payload::Scalar(_) => Err(SchemaError::BadPayload),
                    Payload::Rec(s) => validate(s),
                    Payload::Uni(u) => validate_union(u),
                    Payload::Raw => Ok(()),
                }
            }
        },
        EleType::Text => {
            if f.name.len() > 0 {
                Err(SchemaError::BadName)
            } else if matches!(f.arity, Arity::Repeated) {
                Err(SchemaError::BadArity)
            } else if !matches!(f.payload, Payload::Scalar(_)) {
                Err(SchemaError::BadPayload)
            } else {
                Ok(())
            }
        },
        EleType::SelfClosedChild => {
            if f.name.len() == 0 {
                Err(SchemaError::BadName)
            } else if !matches!(f.arity, Arity::Required) {
                Err(SchemaError::BadArity)
            } else if !matches!(f.payload, Payload::Scalar(ScalarKind::Bool)) {
                Err(SchemaError::BadPayload)
            } else if f.dflt.is_some() {
                Err(SchemaError::BadDefault)
            } else {
                Ok(())
            }
        },
        EleType::Untag | EleType::UntaggedEnum => {
            if f.name.len() > 0 {
                Err(SchemaError::BadName)
            } else {
                match &f.payload {
                    Payload::Uni(u) => validate_union(u),
                    _ => Err(SchemaError::BadPayload),
                }
            }
        },
        EleType::UntaggedStruct => {
            if f.name.len() > 0 {
                Err(SchemaError::BadName)
            } else if matches!(f.arity, Arity::Repeated) {
                Err(SchemaError::BadArity)
            } else {
                match &f.payload {
                    Payload::Rec(s) => {
                        match validate(s) {
                            Ok(_) => {
                                let mut i: usize = 0;
                                let mut ok = true;
                                while i < s.fields.len()
                                    invariant
                                        0 <= i <= s.fields.len(),
                                        ok == forall|j: int|
                                            0 <= j < i ==> (#[trigger] s.fields@[j].role) is Child,
                                    decreases s.fields.len() - i,
                                {
                                    if !matches!(s.fields[i].role, EleType::Child) {
                                        ok = false;
                                    }
                                    i += 1;
                                }
                                if ok {
                                    assert(children_only(**s));
                                    Ok(())
                                } else {
                                    assert(!children_only(**s));
                                    Err(SchemaError::BadUntaggedStruct)
                                }
                            },
                            Err(e) => Err(e),
                        }
                    },
                    _ => Err(SchemaError::BadPayload),
                }
            }
        },
    };
    match role_ok {
        Err(e) => Err(e),
        Ok(_) => {
            match &f.dflt {
                Some(d) => {
                    if check_field_fits(f, d) {
                        Ok(())
                    } else {
                        Err(SchemaError::BadDefault)
                    }
                },
                None => Ok(()),
            }
        },
    }
}

/// Validate a union schema.
pub fn validate_union(u: &UnionSchema) -> (r: Result<(), SchemaError>)
    ensures
        r is Ok <==> wf_union(*u),
    decreases u,
{
    let mut text_seen = false;
    let mut i: usize = 0;
    while i < u.variants.len()
        invariant
            0 <= i <= u.variants.len(),
            forall|j: int|
                0 <= j < i ==> match (#[trigger] u.variants@[j]).kind {
                    VariantKind::Unit => u.variants@[j].tag@.len() > 0,
                    VariantKind::Rec(s) => u.variants@[j].tag@.len() > 0 && wf_record(*s),
                    VariantKind::Text(_) => u.variants@[j].tag@.len() == 0,
                },
            text_seen == exists|j: int| 0 <= j < i && (#[trigger] u.variants@[j].kind) is Text,
            forall|j: int, k: int|
                0 <= j < k < i ==> !((#[trigger] u.variants@[j].kind) is Text && (
                #[trigger] u.variants@[k].kind) is Text),
        decreases u.variants.len() - i,
    {
        let v = &u.variants[i];
        match &v.kind {
            VariantKind::Unit => {
                if v.tag.len() == 0 {
                    return Err(SchemaError::BadVariant);
                }
            },
            VariantKind::Rec(s) => {
                if v.tag.len() == 0 {
                    return Err(SchemaError::BadVariant);
                }
                match validate(s) {
                    Ok(_) => {},
                    Err(e) => {
                        return Err(e);
                    },
                }
            },
            VariantKind::Text(_) => {
                if v.tag.len() > 0 {
                    return Err(SchemaError::BadVariant);
                }
                if text_seen {
                    return Err(SchemaError::BadVariant);
                }
                text_seen = true;
            },
        }
        i += 1;
    }
    Ok(())
}

/// Validate a record schema: returns `Ok` exactly when the schema is well
/// formed, and the first offence otherwise.
pub fn validate(s: &RecordSchema) -> (r: Result<(), SchemaError>)
    ensures
        r is Ok <==> wf_record(*s),
    decreases s,
{
    let mut text_seen = false;
    let mut body_seen = false;
    let mut i: usize = 0;
    while i < s.fields.len()
        invariant
            0 <= i <= s.fields.len(),
            forall|j: int| 0 <= j < i ==> wf_field(#[trigger] s.fields@[j]),
            text_seen == exists|j: int| 0 <= j < i && (#[trigger] s.fields@[j].role) is Text,
            body_seen == exists|j: int| 0 <= j < i && role_in_body(#[trigger] s.fields@[j].role),
            forall|j: int, k: int|
                0 <= j < i && 0 <= k < i && j != k && (#[trigger] s.fields@[j].role) is Text ==> !((
                #[trigger] s.fields@[k].role) is Text) && !role_in_body(s.fields@[k].role),
        decreases s.fields.len() - i,
    {
        let f = &s.fields[i];
        match validate_field(f) {
            Ok(_) => {},
            Err(e) => {
                return Err(e);
            },
        }
        let is_text = matches!(f.role, EleType::Text);
        let in_body = matches!(
            f.role,
            EleType::Child | EleType::SelfClosedChild | EleType::Untag | EleType::UntaggedEnum
                | EleType::UntaggedStruct
        );
        if is_text && (text_seen || body_seen) {
            return Err(SchemaError::TextConflict);
        }
        if in_body && text_seen {
            return Err(SchemaError::TextConflict);
        }
        text_seen = text_seen || is_text;
        body_seen = body_seen || in_body;
        i += 1;
    }
    Ok(())
}

} // verus!
