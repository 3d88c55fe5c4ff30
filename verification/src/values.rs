//! Dynamic record values: what the engine reads from and writes to XML.
//!
//! A record value is an ordered list of field values, parallel to the
//! field list of its schema. Each field value carries its arity shape
//! (exactly one, optional, repeated, or a presence flag), and an item is a
//! scalar, a nested record, one variant of a tagged union, or an opaque
//! captured subtree ([`Unparsed`]).

use vstd::prelude::*;

use crate::events::AttrM;
use crate::events::EventM;
use crate::events::XmlAttr;
use crate::events::XmlEvent;
use crate::events::attrs_model;
use crate::events::clone_attrs;
use crate::events::events_model;
use crate::scalars::Scalar;
use crate::scalars::ScalarM;

verus! {

/// An opaque, replayable capture of one element: its attributes and the
/// raw events of its body, never interpreted.
pub struct Unparsed {
    pub attrs: Vec<XmlAttr>,
    pub data: Vec<XmlEvent>,
}

/// One item of a field: the payload under the arity wrapper.
pub enum ItemValue {
    Sc(Scalar),
    Rec(Box<RecordValue>),
    Uni(Box<UnionValue>),
    Raw(Unparsed),
}

/// One variant of a tagged union: the variant's index in its union schema
/// and its payload (none for a unit variant).
pub struct UnionValue {
    pub variant: usize,
    pub payload: Option<ItemValue>,
}

/// One field of a record, shaped by its arity.
pub enum FieldValue {
    One(ItemValue),
    Opt(Option<ItemValue>),
    Many(Vec<ItemValue>),
    Flag(bool),
}

/// One record value.
pub struct RecordValue {
    pub fields: Vec<FieldValue>,
}

/// Model of an unparsed capture.
pub struct UnparsedM {
    pub attrs: Seq<AttrM>,
    pub data: Seq<EventM>,
}

/// Model of an item.
pub enum ItemM {
    Sc(ScalarM),
    Rec(RecordM),
    Uni(UnionM),
    Raw(UnparsedM),
}

/// Model of a union value.
pub struct UnionM {
    pub variant: int,
    pub payload: Option<Box<ItemM>>,
}

/// Model of a field value.
pub enum FieldM {
    One(ItemM),
    Opt(Option<Box<ItemM>>),
    Many(Seq<ItemM>),
    Flag(bool),
}

/// Model of a record value.
pub struct RecordM {
    pub fields: Seq<FieldM>,
}

broadcast use vstd::seq::axiom_seq_index_decreases, vstd::seq::axiom_seq_subrange_decreases, vstd::std_specs::vec::axiom_vec_decreases_to_view;

pub open spec fn unparsed_model(u: Unparsed) -> UnparsedM {
    UnparsedM { attrs: attrs_model(u.attrs@), data: events_model(u.data@) }
}

pub open spec fn item_model(v: ItemValue) -> ItemM
    decreases v,
{
    match v {
        ItemValue::Sc(s) => ItemM::Sc(s@),
        ItemValue::Rec(b) => ItemM::Rec(record_model(*b)),
        ItemValue::Uni(b) => ItemM::Uni(union_model(*b)),
        ItemValue::Raw(u) => ItemM::Raw(unparsed_model(u)),
    }
}

pub open spec fn union_model(v: UnionValue) -> UnionM
    decreases v,
{
    UnionM {
        variant: v.variant as int,
        payload: match v.payload {
            Some(p) => Some(Box::new(item_model(p))),
            None => None,
        },
    }
}

/// Model of a sequence of items, elementwise.
pub open spec fn items_model(vs: Seq<ItemValue>) -> Seq<ItemM>
    decreases vs,
{
    if vs.len() == 0 {
        Seq::empty()
    } else {
        items_model(vs.drop_last()).push(item_model(vs.last()))
    }
}

pub open spec fn field_model(f: FieldValue) -> FieldM
    decreases f,
{
    match f {
        FieldValue::One(v) => FieldM::One(item_model(v)),
        FieldValue::Opt(o) => FieldM::Opt(
            match o {
                Some(v) => Some(Box::new(item_model(v))),
                None => None,
            },
        ),
        FieldValue::Many(vs) => FieldM::Many(items_model(vs@)),
        FieldValue::Flag(b) => FieldM::Flag(b),
    }
}

/// Model of a sequence of field values, elementwise.
pub open spec fn fields_model(fs: Seq<FieldValue>) -> Seq<FieldM>
    decreases fs,
{
    if fs.len() == 0 {
        Seq::empty()
    } else {
        fields_model(fs.drop_last()).push(field_model(fs.last()))
    }
}

pub open spec fn record_model(v: RecordValue) -> RecordM
    decreases v,
{
    RecordM { fields: fields_model(v.fields@) }
}

/// `items_model` is the elementwise model.
pub broadcast proof fn lemma_items_model(vs: Seq<ItemValue>)
    ensures
        (#[trigger] items_model(vs)).len() == vs.len(),
        forall|i: int| 0 <= i < vs.len() ==> items_model(vs)[i] == item_model(vs[i]),
    decreases vs.len(),
{
    if vs.len() > 0 {
        lemma_items_model(vs.drop_last());
    }
}

/// `fields_model` is the elementwise model.
pub broadcast proof fn lemma_fields_model(fs: Seq<FieldValue>)
    ensures
        (#[trigger] fields_model(fs)).len() == fs.len(),
        forall|i: int| 0 <= i < fs.len() ==> fields_model(fs)[i] == field_model(fs[i]),
    decreases fs.len(),
{
    if fs.len() > 0 {
        lemma_fields_model(fs.drop_last());
    }
}

impl View for Unparsed {
    type V = UnparsedM;

    open spec fn view(&self) -> UnparsedM {
        unparsed_model(*self)
    }
}

impl View for ItemValue {
    type V = ItemM;

    open spec fn view(&self) -> ItemM {
        item_model(*self)
    }
}

impl View for UnionValue {
    type V = UnionM;

    open spec fn view(&self) -> UnionM {
        union_model(*self)
    }
}

impl View for FieldValue {
    type V = FieldM;

    open spec fn view(&self) -> FieldM {
        field_model(*self)
    }
}

impl View for RecordValue {
    type V = RecordM;

    open spec fn view(&self) -> RecordM {
        record_model(*self)
    }
}

impl Clone for Unparsed {
    fn clone(&self) -> (r: Self)
        ensures
            r@ == self@,
    {
        let mut data: Vec<XmlEvent> = Vec::new();
        let mut i: usize = 0;
        while i < self.data.len()
            invariant
                0 <= i <= self.data.len(),
                data@.len() == i,
                events_model(data@) == events_model(self.data@.subrange(0, i as int)),
            decreases self.data.len() - i,
        {
            data.push(self.data[i].clone());
            proof {
                assert(events_model(self.data@.subrange(0, i + 1 as int)) =~= events_model(
                    self.data@.subrange(0, i as int),
                ).push(self.data@[i as int]@));
                assert(events_model(data@) =~= events_model(self.data@.subrange(0, i + 1 as int)));
            }
            i += 1;
        }
        proof {
            assert(self.data@.subrange(0, self.data@.len() as int) =~= self.data@);
        }
        Unparsed { attrs: clone_attrs(&self.attrs), data }
    }
}

/// Deep copy of an item, equal in the model.
pub fn clone_item(v: &ItemValue) -> (r: ItemValue)
    ensures
        r@ == v@,
    decreases v,
{
    match v {
        ItemValue::Sc(s) => ItemValue::Sc(s.clone()),
        ItemValue::Rec(b) => ItemValue::Rec(Box::new(clone_record(b))),
        ItemValue::Uni(b) => ItemValue::Uni(Box::new(clone_union(b))),
        ItemValue::Raw(u) => ItemValue::Raw(u.clone()),
    }
}

/// Deep copy of a union value, equal in the model.
pub fn clone_union(v: &UnionValue) -> (r: UnionValue)
    ensures
        r@ == v@,
    decreases v,
{
    UnionValue {
        variant: v.variant,
        payload: match &v.payload {
            Some(p) => Some(clone_item(p)),
            None => None,
        },
    }
}

/// Deep copy of a field value, equal in the model.
pub fn clone_field(f: &FieldValue) -> (r: FieldValue)
    ensures
        r@ == f@,
    decreases f,
{
    match f {
        FieldValue::One(v) => FieldValue::One(clone_item(v)),
        FieldValue::Opt(o) => FieldValue::Opt(
            match o {
                Some(v) => Some(clone_item(v)),
                None => None,
            },
        ),
        FieldValue::Many(vs) => {
            let mut out: Vec<ItemValue> = Vec::new();
            let mut i: usize = 0;
            while i < vs.len()
                invariant
                    0 <= i <= vs.len(),
                    out@.len() == i,
                    items_model(out@) == items_model(vs@.subrange(0, i as int)),
                decreases vs.len() - i,
            {
                let ghost old_out = out@;
                out.push(clone_item(&vs[i]));
                proof {
                    assert(vs@.subrange(0, i + 1 as int).drop_last() =~= vs@.subrange(0, i as int));
                    assert(vs@.subrange(0, i + 1 as int).last() == vs@[i as int]);
                    assert(out@.drop_last() =~= old_out);
                    assert(items_model(out@) == items_model(vs@.subrange(0, i + 1 as int)));
                }
                i += 1;
            }
            proof {
                assert(vs@.subrange(0, vs@.len() as int) =~= vs@);
            }
            FieldValue::Many(out)
        },
        FieldValue::Flag(b) => FieldValue::Flag(*b),
    }
}

/// Deep copy of a record value, equal in the model.
pub fn clone_record(v: &RecordValue) -> (r: RecordValue)
    ensures
        r@ == v@,
    decreases v,
{
    let mut fields: Vec<FieldValue> = Vec::new();
    let mut i: usize = 0;
    while i < v.fields.len()
        invariant
            0 <= i <= v.fields.len(),
            fields@.len() == i,
            fields_model(fields@) == fields_model(v.fields@.subrange(0, i as int)),
        decreases v.fields.len() - i,
    {
        let ghost old_fields = fields@;
        fields.push(clone_field(&v.fields[i]));
        proof {
            assert(v.fields@.subrange(0, i + 1 as int).drop_last() =~= v.fields@.subrange(
                0,
                i as int,
            ));
            assert(v.fields@.subrange(0, i + 1 as int).last() == v.fields@[i as int]);
            assert(fields@.drop_last() =~= old_fields);
            assert(fields_model(fields@) == fields_model(v.fields@.subrange(0, i + 1 as int)));
        }
        i += 1;
    }
    proof {
        assert(v.fields@.subrange(0, v.fields@.len() as int) =~= v.fields@);
    }
    RecordValue { fields }
}

} // verus!
