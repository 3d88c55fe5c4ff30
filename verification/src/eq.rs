//! Deep equality of values, decided in executable code and exact on the
//! mathematical models. The serialization planner compares a field value
//! with its declared default to decide whether to skip it.

use vstd::prelude::*;

use crate::bytes::bytes_eq;
use crate::events::XmlAttr;
use crate::events::XmlEvent;
use crate::events::attrs_model;
use crate::events::events_model;
use crate::scalars::Scalar;
use crate::values::FieldValue;
use crate::values::ItemValue;
use crate::values::RecordValue;
use crate::values::UnionValue;
use crate::values::Unparsed;
use crate::values::lemma_fields_model;
use crate::values::lemma_items_model;

verus! {

broadcast use vstd::seq::axiom_seq_index_decreases, vstd::seq::axiom_seq_subrange_decreases, vstd::std_specs::vec::axiom_vec_decreases_to_view;

/// Scalar equality on the model.
pub fn scalar_eq(a: &Scalar, b: &Scalar) -> (r: bool)
    ensures
        r == (a@ == b@),
{
    match (a, b) {
        (Scalar::Bool(x), Scalar::Bool(y)) => x == y,
        (Scalar::Uns(x), Scalar::Uns(y)) => x == y,
        (Scalar::Sgn(x), Scalar::Sgn(y)) => x == y,
        (Scalar::Str(x), Scalar::Str(y)) => bytes_eq(x.as_slice(), y.as_slice()),
        (Scalar::Choice(x), Scalar::Choice(y)) => x == y,
        _ => false,
    }
}

/// Attribute equality on the model.
pub fn attr_eq(a: &XmlAttr, b: &XmlAttr) -> (r: bool)
    ensures
        r == (a@ == b@),
{
    bytes_eq(a.name.as_slice(), b.name.as_slice()) && bytes_eq(
        a.value.as_slice(),
        b.value.as_slice(),
    )
}

/// Attribute-list equality on the model.
pub fn attrs_eq(a: &Vec<XmlAttr>, b: &Vec<XmlAttr>) -> (r: bool)
    ensures
        r == (attrs_model(a@) == attrs_model(b@)),
{
    if a.len() != b.len() {
        assert(attrs_model(a@).len() != attrs_model(b@).len());
        return false;
    }
    let mut i: usize = 0;
    while i < a.len()
        invariant
            0 <= i <= a.len(),
            a@.len() == b@.len(),
            forall|j: int| 0 <= j < i ==> a@[j]@ == b@[j]@,
        decreases a.len() - i,
    {
        if !attr_eq(&a[i], &b[i]) {
            assert(attrs_model(a@)[i as int] != attrs_model(b@)[i as int]);
            return false;
        }
        i += 1;
    }
    proof {
        assert(attrs_model(a@) =~= attrs_model(b@));
    }
    true
}

/// Event equality on the model.
pub fn event_eq(a: &XmlEvent, b: &XmlEvent) -> (r: bool)
    ensures
        r == (a@ == b@),
{
    match (a, b) {
        (XmlEvent::Start { name: n1, attrs: a1 }, XmlEvent::Start { name: n2, attrs: a2 }) => {
            bytes_eq(n1.as_slice(), n2.as_slice()) && attrs_eq(a1, a2)
        },
        (XmlEvent::Empty { name: n1, attrs: a1 }, XmlEvent::Empty { name: n2, attrs: a2 }) => {
            bytes_eq(n1.as_slice(), n2.as_slice()) && attrs_eq(a1, a2)
        },
        (XmlEvent::End { name: n1 }, XmlEvent::End { name: n2 }) => {
            bytes_eq(n1.as_slice(), n2.as_slice())
        },
        (XmlEvent::Text { content: c1 }, XmlEvent::Text { content: c2 }) => {
            bytes_eq(c1.as_slice(), c2.as_slice())
        },
        _ => false,
    }
}

/// Event-list equality on the model.
pub fn events_eq(a: &Vec<XmlEvent>, b: &Vec<XmlEvent>) -> (r: bool)
    ensures
        r == (events_model(a@) == events_model(b@)),
{
    if a.len() != b.len() {
        assert(events_model(a@).len() != events_model(b@).len());
        return false;
    }
    let mut i: usize = 0;
    while i < a.len()
        invariant
            0 <= i <= a.len(),
            a@.len() == b@.len(),
            forall|j: int| 0 <= j < i ==> a@[j]@ == b@[j]@,
        decreases a.len() - i,
    {
        if !event_eq(&a[i], &b[i]) {
            assert(events_model(a@)[i as int] != events_model(b@)[i as int]);
            return false;
        }
        i += 1;
    }
    proof {
        assert(events_model(a@) =~= events_model(b@));
    }
    true
}

/// Unparsed-capture equality on the model.
pub fn unparsed_eq(a: &Unparsed, b: &Unparsed) -> (r: bool)
    ensures
        r == (a@ == b@),
{
    attrs_eq(&a.attrs, &b.attrs) && events_eq(&a.data, &b.data)
}

/// Item equality on the model.
pub fn item_eq(a: &ItemValue, b: &ItemValue) -> (r: bool)
    ensures
        r == (a@ == b@),
    decreases a,
{
    match (a, b) {
        (ItemValue::Sc(x), ItemValue::Sc(y)) => scalar_eq(x, y),
        (ItemValue::Rec(x), ItemValue::Rec(y)) => record_eq(x, y),
        (ItemValue::Uni(x), ItemValue::Uni(y)) => union_eq(x, y),
        (ItemValue::Raw(x), ItemValue::Raw(y)) => unparsed_eq(x, y),
        _ => false,
    }
}

/// Union-value equality on the model.
pub fn union_eq(a: &UnionValue, b: &UnionValue) -> (r: bool)
    ensures
        r == (a@ == b@),
    decreases a,
{
    if a.variant != b.variant {
        return false;
    }
    match (&a.payload, &b.payload) {
        (None, None) => true,
        (Some(x), Some(y)) => item_eq(x, y),
        _ => false,
    }
}

/// Field-value equality on the model.
pub fn field_eq(a: &FieldValue, b: &FieldValue) -> (r: bool)
    ensures
        r == (a@ == b@),
    decreases a,
{
    match (a, b) {
        (FieldValue::One(x), FieldValue::One(y)) => item_eq(x, y),
        (FieldValue::Opt(None), FieldValue::Opt(None)) => true,
        (FieldValue::Opt(Some(x)), FieldValue::Opt(Some(y))) => item_eq(x, y),
        (FieldValue::Flag(x), FieldValue::Flag(y)) => x == y,
        (FieldValue::Many(xs), FieldValue::Many(ys)) => {
            proof {
                lemma_items_model(xs@);
                lemma_items_model(ys@);
            }
            if xs.len() != ys.len() {
                return false;
            }
            let mut i: usize = 0;
            while i < xs.len()
                invariant
                    0 <= i <= xs.len(),
                    xs@.len() == ys@.len(),
                    forall|j: int|
                        0 <= j < i ==> crate::values::item_model(#[trigger] xs@[j])
                            == crate::values::item_model(ys@[j]),
                decreases xs.len() - i,
            {
                if !item_eq(&xs[i], &ys[i]) {
                    proof {
                        lemma_items_model(xs@);
                        lemma_items_model(ys@);
                        assert(crate::values::items_model(xs@)[i as int] != crate::values::items_model(
                            ys@,
                        )[i as int]);
                    }
                    return false;
                }
                i += 1;
            }
            proof {
                lemma_items_model(xs@);
                lemma_items_model(ys@);
                assert(crate::values::items_model(xs@) =~= crate::values::items_model(ys@));
            }
            true
        },
        _ => false,
    }
}

/// Record-value equality on the model.
pub fn record_eq(a: &RecordValue, b: &RecordValue) -> (r: bool)
    ensures
        r == (a@ == b@),
    decreases a,
{
    proof {
        lemma_fields_model(a.fields@);
        lemma_fields_model(b.fields@);
    }
    if a.fields.len() != b.fields.len() {
        return false;
    }
    let mut i: usize = 0;
    while i < a.fields.len()
        invariant
            0 <= i <= a.fields.len(),
            a.fields@.len() == b.fields@.len(),
            forall|j: int|
                0 <= j < i ==> crate::values::field_model(#[trigger] a.fields@[j])
                    == crate::values::field_model(b.fields@[j]),
        decreases a.fields.len() - i,
    {
        if !field_eq(&a.fields[i], &b.fields[i]) {
            proof {
                lemma_fields_model(a.fields@);
                lemma_fields_model(b.fields@);
                assert(crate::values::fields_model(a.fields@)[i as int]
                    != crate::values::fields_model(b.fields@)[i as int]);
            }
            return false;
        }
        i += 1;
    }
    proof {
        lemma_fields_model(a.fields@);
        lemma_fields_model(b.fields@);
        assert(crate::values::fields_model(a.fields@) =~= crate::values::fields_model(b.fields@));
    }
    true
}

} // verus!
