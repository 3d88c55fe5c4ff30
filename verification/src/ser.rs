//! The serialization planner.
//!
//! [`ser_record_m`] is the mathematical statement of what a record emits:
//! namespace attributes first, then field attributes (optional attributes
//! only when present, defaulted attributes only when they differ from the
//! default), then — unless nothing has content, in which case the element
//! self-closes — a body of self-closing flags, named children, untagged
//! bodies and finally text. The executable [`ser_record`] is proved to
//! emit exactly that event sequence.

use vstd::prelude::*;

use crate::eq::field_eq;
use crate::events::AttrM;
use crate::events::EventM;
use crate::events::XmlAttr;
use crate::events::XmlEvent;
use crate::events::attrs_model;
use crate::events::clone_attrs;
use crate::events::clone_bytes;
use crate::events::events_model;
use crate::events::slice_to_bytes;
use crate::scalars::print_scalar;
use crate::scalars::scalar_print;
use crate::schema::Arity;
use crate::schema::EleType;
use crate::schema::FieldSchema;
use crate::schema::Payload;
use crate::schema::RecordSchema;
use crate::schema::UnionSchema;
use crate::schema::VariantKind;
use crate::schema::field_fits;
use crate::schema::item_fits;
use crate::schema::record_fits;
use crate::schema::union_fits;
use crate::values::FieldM;
use crate::values::FieldValue;
use crate::values::ItemM;
use crate::values::ItemValue;
use crate::values::RecordM;
use crate::values::RecordValue;
use crate::values::UnionValue;
use crate::values::Unparsed;
use crate::values::UnionM;
use crate::values::UnparsedM;
use crate::values::field_model;
use crate::values::item_model;
use crate::values::items_model;
use crate::values::lemma_fields_model;
use crate::values::lemma_items_model;

verus! {

broadcast use vstd::seq::axiom_seq_index_decreases, vstd::seq::axiom_seq_subrange_decreases, vstd::std_specs::vec::axiom_vec_decreases_to_view;

/// The bytes of the reserved attribute name `xmlns`.
pub open spec fn xmlns_bytes() -> Seq<u8> {
    seq![120u8, 109u8, 108u8, 110u8, 115u8]
}

/// The bytes of the prefix `xmlns:`.
pub open spec fn xmlns_colon_bytes() -> Seq<u8> {
    seq![120u8, 109u8, 108u8, 110u8, 115u8, 58u8]
}

/// Namespace declarations as attributes: the default namespace as
/// `xmlns`, each prefixed binding as `xmlns:prefix`.
pub open spec fn ns_attrs_m(s: RecordSchema) -> Seq<AttrM> {
    let base: Seq<AttrM> = match s.with_ns {
        Some(ns) => seq![(xmlns_bytes(), ns@)],
        None => Seq::empty(),
    };
    base + custom_ns_attrs_m(s.custom_ns@)
}

/// Prefixed namespace bindings as attributes.
pub open spec fn custom_ns_attrs_m(ns: Seq<XmlAttr>) -> Seq<AttrM>
    decreases ns,
{
    if ns.len() == 0 {
        Seq::empty()
    } else {
        custom_ns_attrs_m(ns.drop_last()) + seq![
            (xmlns_colon_bytes() + ns.last().name@, ns.last().value@),
        ]
    }
}

/// The attribute a single field contributes: nothing unless the field is
/// an attribute; an optional attribute only when present; a defaulted
/// attribute only when it differs from its default.
pub open spec fn field_attr_m(f: FieldSchema, fm: FieldM) -> Seq<AttrM> {
    if !(f.role is Attr) {
        Seq::empty()
    } else {
        match f.payload {
            Payload::Scalar(k) => match fm {
                FieldM::One(ItemM::Sc(sm)) => {
                    if f.dflt matches Some(d) && field_model(d) == fm {
                        Seq::empty()
                    } else {
                        seq![(f.name@, scalar_print(k, sm))]
                    }
                },
                FieldM::Opt(o) => match o {
                    Some(b) => match *b {
                        ItemM::Sc(sm) => seq![(f.name@, scalar_print(k, sm))],
                        _ => Seq::empty(),
                    },
                    None => Seq::empty(),
                },
                _ => Seq::empty(),
            },
            _ => Seq::empty(),
        }
    }
}

/// The attributes of the fields, in declaration order.
pub open spec fn field_attrs_m(fs: Seq<FieldSchema>, fms: Seq<FieldM>) -> Seq<AttrM>
    decreases fms,
{
    if fms.len() == 0 || fs.len() != fms.len() {
        Seq::empty()
    } else {
        field_attrs_m(fs.drop_last(), fms.drop_last()) + field_attr_m(fs.last(), fms.last())
    }
}

/// All attributes of the element: namespaces first, then the fields'.
pub open spec fn ser_attrs_m(s: RecordSchema, fms: Seq<FieldM>) -> Seq<AttrM> {
    ns_attrs_m(s) + field_attrs_m(s.fields@, fms)
}

/// Whether a field forces body content. Attributes never do; an untagged
/// struct always does by its mere declaration; a flag does when set;
/// collections when non-empty; optionals when present; a defaulted value
/// when it differs from its default.
pub open spec fn field_has_content(f: FieldSchema, fm: FieldM) -> bool {
    match f.role {
        EleType::Attr => false,
        EleType::SelfClosedChild => fm matches FieldM::Flag(b) && b,
        EleType::UntaggedStruct => true,
        EleType::Text | EleType::Child | EleType::Untag | EleType::UntaggedEnum => {
            match f.arity {
                Arity::Repeated => fm matches FieldM::Many(ms) && ms.len() > 0,
                Arity::Optional => fm matches FieldM::Opt(o) && o is Some,
                Arity::Required => {
                    match f.dflt {
                        Some(d) => field_model(d) != fm,
                        None => true,
                    }
                },
            }
        },
    }
}

/// No field forces content: the element may self-close.
pub open spec fn rec_no_content(fs: Seq<FieldSchema>, fms: Seq<FieldM>) -> bool {
    forall|i: int|
        0 <= i < fms.len() && i < fs.len() ==> !field_has_content(fs[i], #[trigger] fms[i])
}

/// Replay of an unparsed capture under the given tag: its attributes on a
/// start tag, the captured events verbatim, the matching end tag; or a
/// self-closed tag when nothing was captured.
pub open spec fn ser_unparsed_m(um: UnparsedM, tag: Seq<u8>) -> Seq<EventM> {
    if um.data.len() > 0 {
        seq![EventM::Start(tag, um.attrs)] + um.data + seq![EventM::End(tag)]
    } else {
        seq![EventM::Empty(tag, um.attrs)]
    }
}

/// What one item emits under the given tag.
pub open spec fn item_events_m(p: Payload, m: ItemM, tag: Seq<u8>) -> Seq<EventM>
    decreases m, 0int,
{
    match (p, m) {
        (Payload::Rec(s), ItemM::Rec(rm)) => ser_record_m(*s, rm, tag),
        (Payload::Uni(u), ItemM::Uni(um)) => ser_union_m(*u, um, tag),
        (Payload::Raw, ItemM::Raw(um)) => ser_unparsed_m(um, tag),
        _ => Seq::empty(),
    }
}

/// What a repeated field's items emit, in order.
pub open spec fn items_events_m(p: Payload, ms: Seq<ItemM>, tag: Seq<u8>) -> Seq<EventM>
    decreases ms, 0int,
{
    if ms.len() == 0 {
        Seq::empty()
    } else {
        items_events_m(p, ms.drop_last(), tag) + item_events_m(p, ms.last(), tag)
    }
}

/// What one field emits into the body under the given tag (the empty tag
/// for untagged delegation), honouring arity, skip-on-serialize and the
/// default-skip rule.
pub open spec fn field_body_m(f: FieldSchema, fm: FieldM, tag: Seq<u8>) -> Seq<EventM>
    decreases fm, 0int,
{
    if f.skip_serializing {
        Seq::empty()
    } else {
        match f.arity {
            Arity::Required => {
                if f.dflt matches Some(d) && field_model(d) == fm {
                    Seq::empty()
                } else {
                    match fm {
                        FieldM::One(m) => item_events_m(f.payload, m, tag),
                        _ => Seq::empty(),
                    }
                }
            },
            Arity::Optional => match fm {
                FieldM::Opt(Some(b)) => item_events_m(f.payload, *b, tag),
                _ => Seq::empty(),
            },
            Arity::Repeated => match fm {
                FieldM::Many(ms) => items_events_m(f.payload, ms, tag),
                _ => Seq::empty(),
            },
        }
    }
}

/// The self-closing flags that are set, as empty elements, in order.
pub open spec fn flags_events_m(fs: Seq<FieldSchema>, fms: Seq<FieldM>) -> Seq<EventM>
    decreases fms,
{
    if fms.len() == 0 || fs.len() != fms.len() {
        Seq::empty()
    } else {
        flags_events_m(fs.drop_last(), fms.drop_last()) + (if fs.last().role is SelfClosedChild
            && fms.last() matches FieldM::Flag(true) {
            seq![EventM::Empty(fs.last().name@, Seq::empty())]
        } else {
            Seq::empty()
        })
    }
}

/// The named children, in order.
pub open spec fn children_events_m(fs: Seq<FieldSchema>, fms: Seq<FieldM>) -> Seq<EventM>
    decreases fms, 0int,
{
    if fms.len() == 0 || fs.len() != fms.len() {
        Seq::empty()
    } else {
        children_events_m(fs.drop_last(), fms.drop_last()) + (if fs.last().role is Child {
            field_body_m(fs.last(), fms.last(), fs.last().name@)
        } else {
            Seq::empty()
        })
    }
}

/// The untagged bodies (unions and absorbed structs), delegated with the
/// empty tag, in order.
pub open spec fn untagged_events_m(fs: Seq<FieldSchema>, fms: Seq<FieldM>) -> Seq<EventM>
    decreases fms, 0int,
{
    if fms.len() == 0 || fs.len() != fms.len() {
        Seq::empty()
    } else {
        untagged_events_m(fs.drop_last(), fms.drop_last()) + (if crate::schema::role_untagged(
            fs.last().role,
        ) {
            field_body_m(fs.last(), fms.last(), Seq::empty())
        } else {
            Seq::empty()
        })
    }
}

/// The text content, last: an optional text field only when present,
/// otherwise the converted scalar.
pub open spec fn text_events_m(fs: Seq<FieldSchema>, fms: Seq<FieldM>) -> Seq<EventM>
    decreases fms,
{
    if fms.len() == 0 || fs.len() != fms.len() {
        Seq::empty()
    } else {
        text_events_m(fs.drop_last(), fms.drop_last()) + (if fs.last().role is Text {
            match fs.last().payload {
                Payload::Scalar(k) => match fms.last() {
                    FieldM::One(ItemM::Sc(sm)) => seq![EventM::Text(scalar_print(k, sm))],
                    FieldM::Opt(o) => match o {
                        Some(b) => match *b {
                            ItemM::Sc(sm) => seq![EventM::Text(scalar_print(k, sm))],
                            _ => Seq::empty(),
                        },
                        None => Seq::empty(),
                    },
                    _ => Seq::empty(),
                },
                _ => Seq::empty(),
            }
        } else {
            Seq::empty()
        })
    }
}

/// The body of an element: flags, then children, then untagged bodies,
/// then text.
pub open spec fn ser_body_m(s: RecordSchema, fms: Seq<FieldM>) -> Seq<EventM>
    decreases fms, 1int,
{
    flags_events_m(s.fields@, fms) + children_events_m(s.fields@, fms) + untagged_events_m(
        s.fields@,
        fms,
    ) + text_events_m(s.fields@, fms)
}

/// What a record emits under the given tag. The empty tag is the untagged
/// sentinel: only the body is emitted, with no element of its own. With a
/// tag, the element self-closes exactly when no field forces content.
pub open spec fn ser_record_m(s: RecordSchema, rm: RecordM, tag: Seq<u8>) -> Seq<EventM>
    decreases rm, 1int,
{
    if tag.len() == 0 {
        ser_body_m(s, rm.fields)
    } else if rec_no_content(s.fields@, rm.fields) {
        seq![EventM::Empty(tag, ser_attrs_m(s, rm.fields))]
    } else {
        seq![EventM::Start(tag, ser_attrs_m(s, rm.fields))] + ser_body_m(s, rm.fields) + seq![
            EventM::End(tag),
        ]
    }
}

/// What a union value emits under the given tag. With the empty tag the
/// variant stands on its own; otherwise it is wrapped in a bare start/end
/// pair named by the tag. A unit variant is a self-closed element named by
/// its variant tag; a text variant is its converted text alone.
pub open spec fn ser_union_m(u: UnionSchema, um: UnionM, tag: Seq<u8>) -> Seq<EventM>
    decreases um, 0int,
{
    if !(0 <= um.variant < u.variants@.len()) {
        Seq::empty()
    } else {
        let v = u.variants@[um.variant];
        match v.kind {
            VariantKind::Unit => {
                if tag.len() == 0 {
                    seq![EventM::Empty(v.tag@, Seq::empty())]
                } else {
                    seq![
                        EventM::Start(tag, Seq::empty()),
                        EventM::Empty(v.tag@, Seq::empty()),
                        EventM::End(tag),
                    ]
                }
            },
            VariantKind::Text(k) => {
                match um.payload {
                    Some(b) => match *b {
                        ItemM::Sc(sm) => seq![EventM::Text(scalar_print(k, sm))],
                        _ => Seq::empty(),
                    },
                    None => Seq::empty(),
                }
            },
            VariantKind::Rec(s) => {
                match um.payload {
                    Some(b) => match *b {
                        ItemM::Rec(rm) => {
                            if tag.len() == 0 {
                                ser_record_m(*s, rm, v.tag@)
                            } else {
                                seq![EventM::Start(tag, Seq::empty())] + ser_record_m(*s, rm, v.tag@)
                                    + seq![EventM::End(tag)]
                            }
                        },
                        _ => Seq::empty(),
                    },
                    None => Seq::empty(),
                }
            },
        }
    }
}

/// Push one event, extending the model by its view.
fn push_event(out: &mut Vec<XmlEvent>, e: XmlEvent)
    ensures
        events_model(final(out)@) == events_model(old(out)@).push(e@),
{
    let ghost before = out@;
    let ghost em = e@;
    out.push(e);
    proof {
        assert(events_model(out@) =~= events_model(before).push(em));
    }
}

/// The attribute name `xmlns`.
fn xmlns_vec() -> (r: Vec<u8>)
    ensures
        r@ == xmlns_bytes(),
{
    let mut v: Vec<u8> = Vec::new();
    v.push(120);
    v.push(109);
    v.push(108);
    v.push(110);
    v.push(115);
    proof {
        assert(v@ =~= xmlns_bytes());
    }
    v
}

/// `xmlns:` followed by the given prefix.
fn xmlns_prefixed(prefix: &Vec<u8>) -> (r: Vec<u8>)
    ensures
        r@ == xmlns_colon_bytes() + prefix@,
{
    let mut v = xmlns_vec();
    v.push(58);
    let mut i: usize = 0;
    while i < prefix.len()
        invariant
            0 <= i <= prefix.len(),
            v@ == xmlns_colon_bytes() + prefix@.subrange(0, i as int),
        decreases prefix.len() - i,
    {
        v.push(prefix[i]);
        proof {
            assert(xmlns_colon_bytes() + prefix@.subrange(0, i + 1 as int) =~= (xmlns_colon_bytes()
                + prefix@.subrange(0, i as int)).push(prefix@[i as int]));
        }
        i += 1;
    }
    proof {
        assert(xmlns_colon_bytes() + prefix@.subrange(0, prefix@.len() as int) =~= xmlns_colon_bytes()
            + prefix@);
        assert(xmlns_bytes().push(58u8) =~= xmlns_colon_bytes());
        assert(xmlns_colon_bytes() + prefix@.subrange(0, 0) =~= xmlns_colon_bytes());
    }
    v
}

/// Whether this field forces body content.
fn check_has_content(f: &FieldSchema, fv: &FieldValue) -> (r: bool)
    ensures
        r == field_has_content(*f, fv@),
{
    match f.role {
        EleType::Attr => false,
        EleType::SelfClosedChild => {
            match fv {
                FieldValue::Flag(b) => *b,
                _ => false,
            }
        },
        EleType::UntaggedStruct => true,
        _ => {
            match f.arity {
                Arity::Repeated => {
                    match fv {
                        FieldValue::Many(ms) => {
                            proof {
                                lemma_items_model(ms@);
                            }
                            ms.len() > 0
                        },
                        _ => false,
                    }
                },
                Arity::Optional => {
                    match fv {
                        FieldValue::Opt(o) => o.is_some(),
                        _ => false,
                    }
                },
                Arity::Required => {
                    match &f.dflt {
                        Some(d) => !field_eq(d, fv),
                        None => true,
                    }
                },
            }
        },
    }
}

/// Whether no field forces content, so the element may self-close.
fn check_no_content(s: &RecordSchema, v: &RecordValue) -> (r: bool)
    requires
        v.fields@.len() == s.fields@.len(),
    ensures
        r == rec_no_content(s.fields@, v@.fields),
{
    proof {
        lemma_fields_model(v.fields@);
    }
    let mut i: usize = 0;
    while i < v.fields.len()
        invariant
            0 <= i <= v.fields.len(),
            forall|j: int|
                0 <= j < i ==> !field_has_content(s.fields@[j], field_model(
                    #[trigger] v.fields@[j],
                )),
        decreases v.fields.len() - i,
    {
        if check_has_content(&s.fields[i], &v.fields[i]) {
            proof {
                lemma_fields_model(v.fields@);
                assert(field_has_content(s.fields@[i as int], v@.fields[i as int]));
            }
            return false;
        }
        i += 1;
    }
    proof {
        lemma_fields_model(v.fields@);
    }
    true
}

/// Build the element's attribute list: namespaces first, then the fields'.
fn build_attrs(s: &RecordSchema, v: &RecordValue) -> (r: Vec<XmlAttr>)
    requires
        record_fits(*s, v@),
    ensures
        attrs_model(r@) == ser_attrs_m(*s, v@.fields),
{
    proof {
        lemma_fields_model(v.fields@);
    }
    let mut out: Vec<XmlAttr> = Vec::new();
    match &s.with_ns {
        Some(ns) => {
            out.push(XmlAttr { name: xmlns_vec(), value: clone_bytes(ns) });
        },
        None => {},
    }
    let ghost base: Seq<AttrM> = match &s.with_ns {
        Some(ns) => seq![(xmlns_bytes(), ns@)],
        None => Seq::empty(),
    };
    proof {
        assert(attrs_model(out@) =~= base);
    }
    let mut i: usize = 0;
    while i < s.custom_ns.len()
        invariant
            0 <= i <= s.custom_ns.len(),
            attrs_model(out@) == base + custom_ns_attrs_m(s.custom_ns@.subrange(0, i as int)),
        decreases s.custom_ns.len() - i,
    {
        let ghost before = out@;
        out.push(
            XmlAttr {
                name: xmlns_prefixed(&s.custom_ns[i].name),
                value: clone_bytes(&s.custom_ns[i].value),
            },
        );
        proof {
            let sub = s.custom_ns@.subrange(0, i + 1 as int);
            assert(sub.drop_last() =~= s.custom_ns@.subrange(0, i as int));
            assert(sub.last() == s.custom_ns@[i as int]);
            assert(attrs_model(out@) =~= attrs_model(before).push(out@.last()@));
            assert(attrs_model(out@) =~= base + custom_ns_attrs_m(sub));
        }
        i += 1;
    }
    proof {
        assert(s.custom_ns@.subrange(0, s.custom_ns@.len() as int) =~= s.custom_ns@);
        assert(attrs_model(out@) =~= ns_attrs_m(*s));
    }
    let ghost nsm = attrs_model(out@);
    let mut i: usize = 0;
    while i < s.fields.len()
        invariant
            0 <= i <= s.fields.len(),
            record_fits(*s, v@),
            attrs_model(out@) == nsm + field_attrs_m(
                s.fields@.subrange(0, i as int),
                v@.fields.subrange(0, i as int),
            ),
        decreases s.fields.len() - i,
    {
        let f = &s.fields[i];
        let fv = &v.fields[i];
        proof {
            lemma_fields_model(v.fields@);
            assert(field_fits(s.fields@[i as int], v@.fields[i as int]));
        }
        let ghost before = out@;
        let mut emitted = false;
        let ghost attr_part = field_attr_m(s.fields@[i as int], v@.fields[i as int]);
        if matches!(f.role, EleType::Attr) {
            match (&f.payload, fv) {
                (Payload::Scalar(k), FieldValue::One(ItemValue::Sc(sc))) => {
                    let skip = match &f.dflt {
                        Some(d) => field_eq(d, fv),
                        None => false,
                    };
                    if !skip {
                        out.push(XmlAttr { name: clone_bytes(&f.name), value: print_scalar(k, sc) });
                        emitted = true;
                    }
                },
                (Payload::Scalar(k), FieldValue::Opt(Some(ItemValue::Sc(sc)))) => {
                    out.push(XmlAttr { name: clone_bytes(&f.name), value: print_scalar(k, sc) });
                    emitted = true;
                },
                _ => {},
            }
        }
        proof {
            if emitted {
                assert(attrs_model(out@) =~= attrs_model(before).push(out@.last()@));
                assert(attrs_model(out@) =~= attrs_model(before) + attr_part);
            } else {
                assert(attr_part =~= Seq::<AttrM>::empty());
                assert(attrs_model(out@) =~= attrs_model(before) + attr_part);
            }
            let sub_fs = s.fields@.subrange(0, i + 1 as int);
            let sub_fm = v@.fields.subrange(0, i + 1 as int);
            assert(sub_fs.drop_last() =~= s.fields@.subrange(0, i as int));
            assert(sub_fm.drop_last() =~= v@.fields.subrange(0, i as int));
            assert(sub_fs.last() == s.fields@[i as int]);
            assert(sub_fm.last() == v@.fields[i as int]);
            assert(attrs_model(out@) =~= nsm + field_attrs_m(sub_fs, sub_fm));
        }
        i += 1;
    }
    proof {
        assert(s.fields@.subrange(0, s.fields@.len() as int) =~= s.fields@);
        assert(v@.fields.subrange(0, v@.fields.len() as int) =~= v@.fields);
        assert(attrs_model(out@) =~= ser_attrs_m(*s, v@.fields));
    }
    out
}

/// Replay an unparsed capture under the given tag.
fn ser_unparsed(u: &Unparsed, tag: &[u8], out: &mut Vec<XmlEvent>)
    ensures
        events_model(final(out)@) == events_model(old(out)@) + ser_unparsed_m(u@, tag@),
{
    let ghost before = events_model(out@);
    if u.data.len() > 0 {
        push_event(out, XmlEvent::Start { name: slice_to_bytes(tag), attrs: clone_attrs(&u.attrs) });
        let mut i: usize = 0;
        while i < u.data.len()
            invariant
                0 <= i <= u.data.len(),
                events_model(out@) == before.push(EventM::Start(tag@, attrs_model(u.attrs@)))
                    + events_model(u.data@).subrange(0, i as int),
            decreases u.data.len() - i,
        {
            let ghost mid = events_model(out@);
            push_event(out, u.data[i].clone());
            proof {
                crate::values::lemma_items_model(Seq::empty());
                assert(events_model(u.data@)[i as int] == u.data@[i as int]@);
                assert(events_model(u.data@).subrange(0, i + 1 as int) =~= events_model(
                    u.data@,
                ).subrange(0, i as int).push(u.data@[i as int]@));
                assert(events_model(out@) =~= before.push(
                    EventM::Start(tag@, attrs_model(u.attrs@)),
                ) + events_model(u.data@).subrange(0, i + 1 as int));
            }
            i += 1;
        }
        push_event(out, XmlEvent::End { name: slice_to_bytes(tag) });
        proof {
            assert(events_model(u.data@).subrange(0, u.data@.len() as int) =~= events_model(
                u.data@,
            ));
            assert(u@.data == events_model(u.data@));
            assert(u@.data.len() > 0);
            assert(events_model(out@) =~= before + ser_unparsed_m(u@, tag@));
        }
    } else {
        push_event(out, XmlEvent::Empty { name: slice_to_bytes(tag), attrs: clone_attrs(&u.attrs) });
        proof {
            assert(events_model(out@) =~= before + ser_unparsed_m(u@, tag@));
        }
    }
}

/// Emit one item under the given tag.
fn ser_item(p: &Payload, m: &ItemValue, tag: &[u8], out: &mut Vec<XmlEvent>)
    requires
        item_fits(*p, m@),
    ensures
        events_model(final(out)@) == events_model(old(out)@) + item_events_m(*p, m@, tag@),
    decreases m, 0int,
{
    match (p, m) {
        (Payload::Rec(s), ItemValue::Rec(rv)) => {
            ser_record(s, rv, tag, out);
        },
        (Payload::Uni(u), ItemValue::Uni(uv)) => {
            ser_union(u, uv, tag, out);
        },
        (Payload::Raw, ItemValue::Raw(uv)) => {
            ser_unparsed(uv, tag, out);
        },
        (Payload::Scalar(_), ItemValue::Sc(_)) => {
            proof {
                assert(events_model(out@) =~= events_model(out@) + item_events_m(*p, m@, tag@));
            }
        },
        _ => {
            proof {
                assert(false);
            }
        },
    }
}

/// Emit a repeated field's items in order under the given tag.
fn ser_items(p: &Payload, ms: &Vec<ItemValue>, tag: &[u8], out: &mut Vec<XmlEvent>)
    requires
        forall|i: int| 0 <= i < ms@.len() ==> item_fits(*p, item_model(#[trigger] ms@[i])),
    ensures
        events_model(final(out)@) == events_model(old(out)@) + items_events_m(
            *p,
            items_model(ms@),
            tag@,
        ),
    decreases ms, 0int,
{
    let ghost before = events_model(out@);
    proof {
        lemma_items_model(ms@);
    }
    let mut i: usize = 0;
    while i < ms.len()
        invariant
            0 <= i <= ms.len(),
            forall|j: int| 0 <= j < ms@.len() ==> item_fits(*p, item_model(#[trigger] ms@[j])),
            events_model(out@) == before + items_events_m(
                *p,
                items_model(ms@.subrange(0, i as int)),
                tag@,
            ),
        decreases ms.len() - i,
    {
        proof {
            lemma_items_model(ms@);
        }
        ser_item(p, &ms[i], tag, out);
        proof {
            let subm = items_model(ms@.subrange(0, i + 1 as int));
            lemma_items_model(ms@.subrange(0, i + 1 as int));
            lemma_items_model(ms@.subrange(0, i as int));
            assert(ms@.subrange(0, i + 1 as int).drop_last() =~= ms@.subrange(0, i as int));
            assert(subm.drop_last() =~= items_model(ms@.subrange(0, i as int)));
            assert(subm.last() == item_model(ms@[i as int]));
            assert(subm.len() > 0);
            assert(items_events_m(*p, subm, tag@) == items_events_m(
                *p,
                items_model(ms@.subrange(0, i as int)),
                tag@,
            ) + item_events_m(*p, item_model(ms@[i as int]), tag@));
            assert(events_model(out@) =~= before + items_events_m(*p, subm, tag@));
        }
        i += 1;
    }
    proof {
        assert(ms@.subrange(0, ms@.len() as int) =~= ms@);
    }
}

/// Emit one field's body contribution under the given tag.
fn ser_field_body(f: &FieldSchema, fv: &FieldValue, tag: &[u8], out: &mut Vec<XmlEvent>)
    requires
        field_fits(*f, fv@),
        !(f.role is SelfClosedChild),
    ensures
        events_model(final(out)@) == events_model(old(out)@) + field_body_m(*f, fv@, tag@),
    decreases fv, 1int,
{
    let ghost before = events_model(out@);
    if f.skip_serializing {
        proof {
            assert(events_model(out@) =~= before + field_body_m(*f, fv@, tag@));
        }
        return ;
    }
    match &f.arity {
        Arity::Required => {
            let skip = match &f.dflt {
                Some(d) => field_eq(d, fv),
                None => false,
            };
            if !skip {
                match fv {
                    FieldValue::One(m) => {
                        ser_item(&f.payload, m, tag, out);
                    },
                    _ => {
                        proof {
                            assert(false);
                        }
                    },
                }
            }
        },
        Arity::Optional => {
            match fv {
                FieldValue::Opt(Some(m)) => {
                    ser_item(&f.payload, m, tag, out);
                },
                FieldValue::Opt(None) => {},
                _ => {
                    proof {
                        assert(false);
                    }
                },
            }
        },
        Arity::Repeated => {
            match fv {
                FieldValue::Many(ms) => {
                    proof {
                        lemma_items_model(ms@);
                        assert(fv@ == FieldM::Many(items_model(ms@)));
                        assert(crate::schema::items_fit(f.payload, items_model(ms@)));
                        assert forall|j: int| 0 <= j < ms@.len() implies item_fits(
                            f.payload,
                            item_model(#[trigger] ms@[j]),
                        ) by {
                            assert(items_model(ms@)[j] == item_model(ms@[j]));
                        }
                    }
                    ser_items(&f.payload, ms, tag, out);
                },
                _ => {
                    proof {
                        assert(false);
                    }
                },
            }
        },
    }
    proof {
        assert(events_model(out@) =~= before + field_body_m(*f, fv@, tag@));
    }
}

/// Emit a union value under the given tag.
fn ser_union(u: &UnionSchema, uv: &UnionValue, tag: &[u8], out: &mut Vec<XmlEvent>)
    requires
        union_fits(*u, uv@),
    ensures
        events_model(final(out)@) == events_model(old(out)@) + ser_union_m(*u, uv@, tag@),
    decreases uv, 1int,
{
    let ghost before = events_model(out@);
    let v = &u.variants[uv.variant];
    match (&v.kind, &uv.payload) {
        (VariantKind::Unit, None) => {
            if tag.len() == 0 {
                push_event(out, XmlEvent::Empty { name: clone_bytes(&v.tag), attrs: Vec::new() });
            } else {
                push_event(out, XmlEvent::Start { name: slice_to_bytes(tag), attrs: Vec::new() });
                push_event(out, XmlEvent::Empty { name: clone_bytes(&v.tag), attrs: Vec::new() });
                push_event(out, XmlEvent::End { name: slice_to_bytes(tag) });
            }
        },
        (VariantKind::Text(k), Some(ItemValue::Sc(sc))) => {
            push_event(out, XmlEvent::Text { content: print_scalar(k, sc) });
        },
        (VariantKind::Rec(s), Some(ItemValue::Rec(rv))) => {
            if tag.len() == 0 {
                ser_record(s, rv, v.tag.as_slice(), out);
            } else {
                push_event(out, XmlEvent::Start { name: slice_to_bytes(tag), attrs: Vec::new() });
                ser_record(s, rv, v.tag.as_slice(), out);
                push_event(out, XmlEvent::End { name: slice_to_bytes(tag) });
            }
        },
        _ => {
            proof {
                assert(false);
            }
        },
    }
    proof {
        assert(attrs_model(Seq::<XmlAttr>::empty()) =~= Seq::<AttrM>::empty());
        assert(events_model(out@) =~= before + ser_union_m(*u, uv@, tag@));
    }
}

/// Emit the set self-closing flags as empty elements.
fn ser_flags(s: &RecordSchema, v: &RecordValue, out: &mut Vec<XmlEvent>)
    requires
        record_fits(*s, v@),
    ensures
        events_model(final(out)@) == events_model(old(out)@) + flags_events_m(
            s.fields@,
            v@.fields,
        ),
{
    proof {
        lemma_fields_model(v.fields@);
    }
    let ghost before = events_model(out@);
    let mut i: usize = 0;
    while i < s.fields.len()
        invariant
            0 <= i <= s.fields.len(),
            record_fits(*s, v@),
            events_model(out@) == before + flags_events_m(
                s.fields@.subrange(0, i as int),
                v@.fields.subrange(0, i as int),
            ),
        decreases s.fields.len() - i,
    {
        let f = &s.fields[i];
        let mut emitted = false;
        if matches!(f.role, EleType::SelfClosedChild) {
            match &v.fields[i] {
                FieldValue::Flag(true) => {
                    push_event(
                        out,
                        XmlEvent::Empty { name: clone_bytes(&f.name), attrs: Vec::new() },
                    );
                    emitted = true;
                },
                _ => {},
            }
        }
        proof {
            lemma_fields_model(v.fields@);
            let sub_fs = s.fields@.subrange(0, i + 1 as int);
            let sub_fm = v@.fields.subrange(0, i + 1 as int);
            assert(sub_fs.drop_last() =~= s.fields@.subrange(0, i as int));
            assert(sub_fm.drop_last() =~= v@.fields.subrange(0, i as int));
            assert(sub_fm.last() == field_model(v.fields@[i as int]));
            if emitted {
                assert(attrs_model(Seq::<XmlAttr>::empty()) =~= Seq::<AttrM>::empty());
            }
            assert(events_model(out@) =~= before + flags_events_m(sub_fs, sub_fm));
        }
        i += 1;
    }
    proof {
        assert(s.fields@.subrange(0, s.fields@.len() as int) =~= s.fields@);
        assert(v@.fields.subrange(0, v@.fields.len() as int) =~= v@.fields);
    }
}

/// Emit the named children, in declaration order.
fn ser_children(s: &RecordSchema, v: &RecordValue, out: &mut Vec<XmlEvent>)
    requires
        record_fits(*s, v@),
    ensures
        events_model(final(out)@) == events_model(old(out)@) + children_events_m(
            s.fields@,
            v@.fields,
        ),
    decreases v, 1int,
{
    proof {
        lemma_fields_model(v.fields@);
    }
    let ghost before = events_model(out@);
    let mut i: usize = 0;
    while i < s.fields.len()
        invariant
            0 <= i <= s.fields.len(),
            record_fits(*s, v@),
            events_model(out@) == before + children_events_m(
                s.fields@.subrange(0, i as int),
                v@.fields.subrange(0, i as int),
            ),
        decreases s.fields.len() - i,
    {
        let f = &s.fields[i];
        proof {
            lemma_fields_model(v.fields@);
            assert(field_fits(s.fields@[i as int], v@.fields[i as int]));
        }
        if matches!(f.role, EleType::Child) {
            ser_field_body(f, &v.fields[i], f.name.as_slice(), out);
        }
        proof {
            let sub_fs = s.fields@.subrange(0, i + 1 as int);
            let sub_fm = v@.fields.subrange(0, i + 1 as int);
            assert(sub_fs.drop_last() =~= s.fields@.subrange(0, i as int));
            assert(sub_fm.drop_last() =~= v@.fields.subrange(0, i as int));
            assert(sub_fm.last() == field_model(v.fields@[i as int]));
            assert(events_model(out@) =~= before + children_events_m(sub_fs, sub_fm));
        }
        i += 1;
    }
    proof {
        assert(s.fields@.subrange(0, s.fields@.len() as int) =~= s.fields@);
        assert(v@.fields.subrange(0, v@.fields.len() as int) =~= v@.fields);
    }
}

/// Emit the untagged bodies, delegated with the empty tag.
fn ser_untagged(s: &RecordSchema, v: &RecordValue, out: &mut Vec<XmlEvent>)
    requires
        record_fits(*s, v@),
    ensures
        events_model(final(out)@) == events_model(old(out)@) + untagged_events_m(
            s.fields@,
            v@.fields,
        ),
    decreases v, 1int,
{
    proof {
        lemma_fields_model(v.fields@);
    }
    let ghost before = events_model(out@);
    let mut i: usize = 0;
    while i < s.fields.len()
        invariant
            0 <= i <= s.fields.len(),
            record_fits(*s, v@),
            events_model(out@) == before + untagged_events_m(
                s.fields@.subrange(0, i as int),
                v@.fields.subrange(0, i as int),
            ),
        decreases s.fields.len() - i,
    {
        let f = &s.fields[i];
        proof {
            lemma_fields_model(v.fields@);
            assert(field_fits(s.fields@[i as int], v@.fields[i as int]));
        }
        if matches!(f.role, EleType::Untag | EleType::UntaggedEnum | EleType::UntaggedStruct) {
            let empty_tag: Vec<u8> = Vec::new();
            ser_field_body(f, &v.fields[i], empty_tag.as_slice(), out);
        }
        proof {
            let sub_fs = s.fields@.subrange(0, i + 1 as int);
            let sub_fm = v@.fields.subrange(0, i + 1 as int);
            assert(sub_fs.drop_last() =~= s.fields@.subrange(0, i as int));
            assert(sub_fm.drop_last() =~= v@.fields.subrange(0, i as int));
            assert(sub_fm.last() == field_model(v.fields@[i as int]));
            assert(events_model(out@) =~= before + untagged_events_m(sub_fs, sub_fm));
        }
        i += 1;
    }
    proof {
        assert(s.fields@.subrange(0, s.fields@.len() as int) =~= s.fields@);
        assert(v@.fields.subrange(0, v@.fields.len() as int) =~= v@.fields);
    }
}

/// Emit the text content, last.
fn ser_text(s: &RecordSchema, v: &RecordValue, out: &mut Vec<XmlEvent>)
    requires
        record_fits(*s, v@),
    ensures
        events_model(final(out)@) == events_model(old(out)@) + text_events_m(
            s.fields@,
            v@.fields,
        ),
{
    proof {
        lemma_fields_model(v.fields@);
    }
    let ghost before = events_model(out@);
    let mut i: usize = 0;
    while i < s.fields.len()
        invariant
            0 <= i <= s.fields.len(),
            record_fits(*s, v@),
            events_model(out@) == before + text_events_m(
                s.fields@.subrange(0, i as int),
                v@.fields.subrange(0, i as int),
            ),
        decreases s.fields.len() - i,
    {
        let f = &s.fields[i];
        proof {
            lemma_fields_model(v.fields@);
            assert(field_fits(s.fields@[i as int], v@.fields[i as int]));
        }
        if matches!(f.role, EleType::Text) {
            match (&f.payload, &v.fields[i]) {
                (Payload::Scalar(k), FieldValue::One(ItemValue::Sc(sc))) => {
                    push_event(out, XmlEvent::Text { content: print_scalar(k, sc) });
                },
                (Payload::Scalar(k), FieldValue::Opt(Some(ItemValue::Sc(sc)))) => {
                    push_event(out, XmlEvent::Text { content: print_scalar(k, sc) });
                },
                _ => {},
            }
        }
        proof {
            let sub_fs = s.fields@.subrange(0, i + 1 as int);
            let sub_fm = v@.fields.subrange(0, i + 1 as int);
            assert(sub_fs.drop_last() =~= s.fields@.subrange(0, i as int));
            assert(sub_fm.drop_last() =~= v@.fields.subrange(0, i as int));
            assert(sub_fm.last() == field_model(v.fields@[i as int]));
            assert(events_model(out@) =~= before + text_events_m(sub_fs, sub_fm));
        }
        i += 1;
    }
    proof {
        assert(s.fields@.subrange(0, s.fields@.len() as int) =~= s.fields@);
        assert(v@.fields.subrange(0, v@.fields.len() as int) =~= v@.fields);
    }
}

/// Emit a record under the given tag: the serialization planner. With the
/// empty tag only the body is emitted; otherwise the element self-closes
/// exactly when no field forces content.
pub fn ser_record(s: &RecordSchema, v: &RecordValue, tag: &[u8], out: &mut Vec<XmlEvent>)
    requires
        record_fits(*s, v@),
    ensures
        events_model(final(out)@) == events_model(old(out)@) + ser_record_m(*s, v@, tag@),
    decreases v, 2int,
{
    proof {
        lemma_fields_model(v.fields@);
    }
    let ghost before = events_model(out@);
    if tag.len() > 0 {
        let attrs = build_attrs(s, v);
        if check_no_content(s, v) {
            push_event(out, XmlEvent::Empty { name: slice_to_bytes(tag), attrs });
            proof {
                assert(events_model(out@) =~= before + ser_record_m(*s, v@, tag@));
            }
            return ;
        }
        push_event(out, XmlEvent::Start { name: slice_to_bytes(tag), attrs });
    }
    ser_flags(s, v, out);
    ser_children(s, v, out);
    ser_untagged(s, v, out);
    ser_text(s, v, out);
    if tag.len() > 0 {
        push_event(out, XmlEvent::End { name: slice_to_bytes(tag) });
    }
    proof {
        assert(events_model(out@) =~= before + ser_record_m(*s, v@, tag@));
    }
}

} // verus!
