//! The deserialization automaton.
//!
//! One call of [`de_record`] rebuilds one record from a starting tag's
//! attributes and a live position in the event stream: every field starts
//! at its default (explicit or role-empty), the attributes are consumed
//! eagerly, then a single forward pass routes each event — self-closing
//! flags, named children, untagged-union tags, untagged-struct tags, text
//! — until the matching end tag. Unknown content is skipped whole under
//! the accepting policy and is a fatal error under `deny_unknown`.
//! Afterwards untagged-struct captures are resolved and every required
//! field must have received a value.
//!
//! Each executable function is proved equal to a spec-level model of the
//! same pass — [`de_rec_m`] and its companions — so the automaton's whole
//! outcome, success or the exact error, the value and the stream
//! position, is pinned for every event sequence and every schema.

use vstd::prelude::*;

use crate::bytes::bytes_eq;
use crate::bytes::is_all_ws;
use crate::errors::XmlError;
use crate::errors::XmlErrorM;
use crate::events::AttrM;
use crate::events::XmlAttr;
use crate::events::XmlEvent;
use crate::events::attrs_model;
use crate::events::clone_bytes;
use crate::events::events_model;
use crate::scalars::Scalar;
use crate::scalars::ScalarM;
use crate::scalars::parse_scalar;
use crate::scalars::scalar_parse;
use crate::schema::Arity;
use crate::schema::EleType;
use crate::schema::FieldSchema;
use crate::schema::Payload;
use crate::schema::RecordSchema;
use crate::schema::UnionSchema;
use crate::schema::VariantKind;
use crate::schema::field_fits;
use crate::schema::item_fits;
use crate::schema::record_fits;
use crate::schema::union_fits;
use crate::schema::wf_field;
use crate::schema::wf_record;
use crate::schema::wf_union;
use crate::values::FieldM;
use crate::values::FieldValue;
use crate::values::ItemM;
use crate::values::ItemValue;
use crate::values::RecordM;
use crate::values::RecordValue;
use crate::values::UnionM;
use crate::values::UnionValue;
use crate::values::Unparsed;
use crate::values::field_model;
use crate::values::item_model;
use crate::values::items_model;
use crate::values::lemma_fields_model;
use crate::values::lemma_items_model;

verus! {

broadcast use vstd::seq::axiom_seq_index_decreases, vstd::seq::axiom_seq_subrange_decreases, vstd::std_specs::vec::axiom_vec_decreases_to_view;

/// Model of the working state: one slot per field, not yet assigned or
/// holding a fitting value.
pub open spec fn vals_model(vs: Seq<Option<FieldValue>>) -> Seq<Option<FieldM>>
    decreases vs,
{
    if vs.len() == 0 {
        Seq::empty()
    } else {
        vals_model(vs.drop_last()).push(
            match vs.last() {
                Some(fv) => Some(field_model(fv)),
                None => None,
            },
        )
    }
}

/// `vals_model` is the elementwise model.
pub broadcast proof fn lemma_vals_model(vs: Seq<Option<FieldValue>>)
    ensures
        (#[trigger] vals_model(vs)).len() == vs.len(),
        forall|i: int|
            0 <= i < vs.len() ==> vals_model(vs)[i] == (match vs[i] {
                Some(fv) => Some(field_model(fv)),
                None => None,
            }),
    decreases vs.len(),
{
    if vs.len() > 0 {
        lemma_vals_model(vs.drop_last());
    }
}

/// Every assigned slot holds a value fitting its field schema.
pub open spec fn state_ok(s: RecordSchema, vm: Seq<Option<FieldM>>) -> bool {
    &&& vm.len() == s.fields@.len()
    &&& forall|i: int|
        0 <= i < vm.len() ==> match #[trigger] vm[i] {
            Some(fm) => field_fits(s.fields@[i], fm),
            None => true,
        }
}

/// The initial slot of one field: its explicit default, else the
/// role-appropriate empty value, else nothing for a bare required field.
pub open spec fn init_field_m(f: FieldSchema) -> Option<FieldM> {
    match f.dflt {
        Some(d) => Some(field_model(d)),
        None => {
            if f.role is SelfClosedChild {
                Some(FieldM::Flag(false))
            } else {
                match f.arity {
                    Arity::Repeated => Some(FieldM::Many(Seq::empty())),
                    Arity::Optional => Some(FieldM::Opt(None)),
                    Arity::Required => None,
                }
            }
        },
    }
}

/// The initial state, slot by slot.
pub open spec fn init_state_m(fs: Seq<FieldSchema>) -> Seq<Option<FieldM>> {
    Seq::new(fs.len(), |i: int| init_field_m(fs[i]))
}

/// Build the initial state.
fn init_state(s: &RecordSchema) -> (r: Vec<Option<FieldValue>>)
    requires
        wf_record(*s),
    ensures
        r@.len() == s.fields@.len(),
        vals_model(r@) == init_state_m(s.fields@),
        state_ok(*s, vals_model(r@)),
{
    let mut out: Vec<Option<FieldValue>> = Vec::new();
    let mut i: usize = 0;
    while i < s.fields.len()
        invariant
            0 <= i <= s.fields.len(),
            wf_record(*s),
            out@.len() == i,
            vals_model(out@) == init_state_m(s.fields@).subrange(0, i as int),
        decreases s.fields.len() - i,
    {
        let f = &s.fields[i];
        let slot: Option<FieldValue> = match &f.dflt {
            Some(d) => Some(crate::values::clone_field(d)),
            None => {
                if matches!(f.role, EleType::SelfClosedChild) {
                    Some(FieldValue::Flag(false))
                } else {
                    match f.arity {
                        Arity::Repeated => Some(FieldValue::Many(Vec::new())),
                        Arity::Optional => Some(FieldValue::Opt(None)),
                        Arity::Required => None,
                    }
                }
            },
        };
        let ghost before = out@;
        out.push(slot);
        proof {
            lemma_items_model(Seq::empty());
            assert(out@.drop_last() =~= before);
            assert(vals_model(out@) == vals_model(before).push(
                match out@.last() {
                    Some(fv) => Some(field_model(fv)),
                    None => None,
                },
            ));
            assert(items_model(Seq::<ItemValue>::empty()) =~= Seq::<ItemM>::empty());
            assert(vals_model(out@)[i as int] == init_field_m(s.fields@[i as int]));
            assert(vals_model(out@) =~= init_state_m(s.fields@).subrange(0, i + 1 as int));
        }
        i += 1;
    }
    proof {
        assert(init_state_m(s.fields@).subrange(0, s.fields@.len() as int) =~= init_state_m(
            s.fields@,
        ));
        lemma_vals_model(out@);
        assert forall|j: int| 0 <= j < vals_model(out@).len() implies match #[trigger] vals_model(
            out@,
        )[j] {
            Some(fm) => field_fits(s.fields@[j], fm),
            None => true,
        } by {
            assert(wf_field(s.fields@[j]));
            assert(vals_model(out@)[j] == init_field_m(s.fields@[j]));
        }
    }
    out
}

/// Index of the first attribute field with the given name, or -1.
pub open spec fn attr_idx(fs: Seq<FieldSchema>, name: Seq<u8>) -> int
    decreases fs,
{
    if fs.len() == 0 {
        -1
    } else if fs[0].role is Attr && fs[0].name@ == name {
        0
    } else {
        let sub = attr_idx(fs.drop_first(), name);
        if sub == -1 {
            -1
        } else {
            1 + sub
        }
    }
}

/// What `attr_idx` finds: the first match.
pub proof fn lemma_attr_idx(fs: Seq<FieldSchema>, name: Seq<u8>)
    ensures
        attr_idx(fs, name) == -1 ==> forall|i: int|
            0 <= i < fs.len() ==> !((#[trigger] fs[i].role) is Attr && fs[i].name@ == name),
        attr_idx(fs, name) != -1 ==> {
            &&& 0 <= attr_idx(fs, name) < fs.len()
            &&& fs[attr_idx(fs, name)].role is Attr
            &&& fs[attr_idx(fs, name)].name@ == name
            &&& forall|i: int|
                0 <= i < attr_idx(fs, name) ==> !((#[trigger] fs[i].role) is Attr && fs[i].name@
                    == name)
        },
    decreases fs,
{
    if fs.len() > 0 && !(fs[0].role is Attr && fs[0].name@ == name) {
        lemma_attr_idx(fs.drop_first(), name);
        let sub = attr_idx(fs.drop_first(), name);
        if sub == -1 {
            assert forall|i: int|
                0 <= i < fs.len() implies !((#[trigger] fs[i].role) is Attr && fs[i].name@
                == name) by {
                if i > 0 {
                    assert(fs.drop_first()[i - 1] == fs[i]);
                }
            }
        } else {
            assert(fs.drop_first()[sub] == fs[sub + 1]);
            assert forall|i: int|
                0 <= i < attr_idx(fs, name) implies !((#[trigger] fs[i].role) is Attr && fs[i].name@
                == name) by {
                if i > 0 {
                    assert(fs.drop_first()[i - 1] == fs[i]);
                }
            }
        }
    }
}

/// Find the first attribute field with the given name.
fn find_attr_field(s: &RecordSchema, name: &[u8]) -> (r: Option<usize>)
    ensures
        match r {
            Some(i) => i < s.fields@.len() && attr_idx(s.fields@, name@) == i as int,
            None => attr_idx(s.fields@, name@) == -1,
        },
{
    let mut i: usize = 0;
    while i < s.fields.len()
        invariant
            0 <= i <= s.fields.len(),
            forall|j: int|
                0 <= j < i ==> !((#[trigger] s.fields@[j].role) is Attr && s.fields@[j].name@
                    == name@),
        decreases s.fields.len() - i,
    {
        let f = &s.fields[i];
        if matches!(f.role, EleType::Attr) && bytes_eq(f.name.as_slice(), name) {
            proof {
                lemma_attr_idx(s.fields@, name@);
            }
            return Some(i);
        }
        i += 1;
    }
    proof {
        lemma_attr_idx(s.fields@, name@);
    }
    None
}

/// The slot an attribute assignment leaves behind: the parsed scalar under
/// the field's arity.
pub open spec fn attr_slot_m(arity: Arity, sm: ScalarM) -> FieldM {
    match arity {
        Arity::Optional => FieldM::Opt(Some(Box::new(ItemM::Sc(sm)))),
        _ => FieldM::One(ItemM::Sc(sm)),
    }
}

/// The outcome of consuming one attribute: the state unchanged for an
/// unknown name under the accepting policy, an unknown-field error under
/// `deny_unknown`, a value-conversion error when the codec rejects the
/// text, and otherwise the parsed value in the field's slot.
pub open spec fn de_attr_m(s: RecordSchema, vm: Seq<Option<FieldM>>, a: AttrM) -> Result<
    Seq<Option<FieldM>>,
    XmlErrorM,
> {
    let i = attr_idx(s.fields@, a.0);
    if i == -1 {
        if s.deny_unknown {
            Err(XmlErrorM::UnknownField(a.0))
        } else {
            Ok(vm)
        }
    } else {
        match s.fields@[i].payload {
            Payload::Scalar(k) => match scalar_parse(k, a.1) {
                Some(sm) => Ok(vm.update(i, Some(attr_slot_m(s.fields@[i].arity, sm)))),
                None => Err(XmlErrorM::ValueError { field: a.0, raw: a.1 }),
            },
            _ => Ok(vm),
        }
    }
}

/// The outcome of consuming all attributes, in order.
pub open spec fn de_attrs_m(s: RecordSchema, vm: Seq<Option<FieldM>>, attrs: Seq<AttrM>) -> Result<
    Seq<Option<FieldM>>,
    XmlErrorM,
>
    decreases attrs,
{
    if attrs.len() == 0 {
        Ok(vm)
    } else {
        match de_attrs_m(s, vm, attrs.drop_last()) {
            Ok(vm2) => de_attr_m(s, vm2, attrs.last()),
            Err(e) => Err(e),
        }
    }
}

/// Consume all attributes eagerly, exactly as [`de_attrs_m`] says.
fn de_attrs(s: &RecordSchema, vals: &mut Vec<Option<FieldValue>>, attrs: &Vec<XmlAttr>) -> (r:
    Result<(), XmlError>)
    requires
        wf_record(*s),
        state_ok(*s, vals_model(old(vals)@)),
    ensures
        match r {
            Ok(_) => de_attrs_m(*s, vals_model(old(vals)@), attrs_model(attrs@)) == Ok::<
                _,
                XmlErrorM,
            >(vals_model(final(vals)@)),
            Err(e) => de_attrs_m(*s, vals_model(old(vals)@), attrs_model(attrs@)) == Err::<
                Seq<Option<FieldM>>,
                _,
            >(e@),
        },
        state_ok(*s, vals_model(final(vals)@)),
{
    let ghost vm0 = vals_model(vals@);
    let mut i: usize = 0;
    while i < attrs.len()
        invariant
            0 <= i <= attrs.len(),
            wf_record(*s),
            state_ok(*s, vals_model(vals@)),
            de_attrs_m(*s, vm0, attrs_model(attrs@).subrange(0, i as int)) == Ok::<_, XmlErrorM>(
                vals_model(vals@),
            ),
        decreases attrs.len() - i,
    {
        let a = &attrs[i];
        let ghost vm_cur = vals_model(vals@);
        let ghost am = attrs_model(attrs@)[i as int];
        match find_attr_field(s, a.name.as_slice()) {
            Some(fi) => {
                let f = &s.fields[fi];
                proof {
                    lemma_attr_idx(s.fields@, a.name@);
                }
                match &f.payload {
                    Payload::Scalar(k) => {
                        match parse_scalar(k, a.value.as_slice()) {
                            Some(sc) => {
                                let slot: FieldValue = match f.arity {
                                    Arity::Optional => FieldValue::Opt(
                                        Some(ItemValue::Sc(sc)),
                                    ),
                                    _ => FieldValue::One(ItemValue::Sc(sc)),
                                };
                                proof {
                                    lemma_vals_model(vals@);
                                }
                                vals.set(fi, Some(slot));
                                proof {
                                    lemma_vals_model(vals@);
                                    assert(vals_model(vals@) =~= vm_cur.update(
                                        fi as int,
                                        Some(attr_slot_m(s.fields@[fi as int].arity, sc@)),
                                    ));
                                    assert(de_attr_m(*s, vm_cur, am) == Ok::<_, XmlErrorM>(
                                        vals_model(vals@),
                                    ));
                                    assert(wf_field(s.fields@[fi as int]));
                                    crate::scalars::lemma_scalar_parse_fits(*k, a.value@);
                                    assert(field_fits(
                                        s.fields@[fi as int],
                                        attr_slot_m(s.fields@[fi as int].arity, sc@),
                                    ));
                                    assert(state_ok(*s, vals_model(vals@)));
                                }
                            },
                            None => {
                                proof {
                                    assert(de_attr_m(*s, vm_cur, am) == Err::<
                                        Seq<Option<FieldM>>,
                                        _,
                                    >(
                                        XmlErrorM::ValueError { field: a.name@, raw: a.value@ },
                                    ));
                                    assert(attrs_model(attrs@).subrange(0, i + 1 as int).drop_last()
                                        =~= attrs_model(attrs@).subrange(0, i as int));
                                    assert(attrs_model(attrs@).subrange(0, attrs@.len() as int)
                                        =~= attrs_model(attrs@));
                                    assert(de_attrs_m(*s, vm0, attrs_model(attrs@)) == Err::<
                                        Seq<Option<FieldM>>,
                                        _,
                                    >(
                                        XmlErrorM::ValueError { field: a.name@, raw: a.value@ },
                                    )) by {
                                        lemma_de_attrs_err(*s, vm0, attrs_model(attrs@), i as int);
                                    }
                                }
                                return Err(
                                    XmlError::ValueError {
                                        field: clone_bytes(&a.name),
                                        raw: clone_bytes(&a.value),
                                    },
                                );
                            },
                        }
                    },
                    _ => {
                        proof {
                            assert(!wf_field(s.fields@[fi as int]) || s.fields@[fi as int].payload
                                is Scalar);
                            assert(false);
                        }
                    },
                }
            },
            None => {
                if s.deny_unknown {
                    proof {
                        assert(de_attr_m(*s, vm_cur, am) == Err::<Seq<Option<FieldM>>, _>(
                            XmlErrorM::UnknownField(a.name@),
                        ));
                        lemma_de_attrs_err(*s, vm0, attrs_model(attrs@), i as int);
                    }
                    return Err(XmlError::UnknownField(clone_bytes(&a.name)));
                }
            },
        }
        proof {
            let subs = attrs_model(attrs@).subrange(0, i + 1 as int);
            assert(subs.drop_last() =~= attrs_model(attrs@).subrange(0, i as int));
            assert(subs.last() == am);
            assert(de_attrs_m(*s, vm0, subs) == Ok::<_, XmlErrorM>(vals_model(vals@)));
        }
        i += 1;
    }
    proof {
        assert(attrs_model(attrs@).subrange(0, attrs@.len() as int) =~= attrs_model(attrs@));
    }
    Ok(())
}

/// An error while consuming attribute `i` is the error of the whole
/// attribute phase.
proof fn lemma_de_attrs_err(
    s: RecordSchema,
    vm0: Seq<Option<FieldM>>,
    attrs: Seq<AttrM>,
    i: int,
)
    requires
        0 <= i < attrs.len(),
        de_attrs_m(s, vm0, attrs.subrange(0, i)) matches Ok(vm_cur) && de_attr_m(
            s,
            vm_cur,
            attrs[i],
        ) is Err,
    ensures
        de_attrs_m(s, vm0, attrs) == (match de_attrs_m(s, vm0, attrs.subrange(0, i)) {
            Ok(vm_cur) => de_attr_m(s, vm_cur, attrs[i]),
            Err(e) => Err(e),
        }),
    decreases attrs.len() - i,
{
    let step = attrs.subrange(0, i + 1);
    assert(step.drop_last() =~= attrs.subrange(0, i));
    assert(step.last() == attrs[i]);
    if i + 1 == attrs.len() {
        assert(attrs.subrange(0, attrs.len() as int) =~= attrs);
    } else {
        lemma_de_attrs_err_propagates(s, vm0, attrs, i + 1);
    }
}

/// The position just past the end tag that closes a subtree already
/// opened `depth` levels deep at `pos`, or nothing when the stream ends
/// first.
pub open spec fn skip_m(evs: Seq<crate::events::EventM>, pos: int, depth: int) -> Option<int>
    decreases evs.len() - pos,
{
    if pos < 0 || pos >= evs.len() {
        None
    } else {
        match evs[pos] {
            crate::events::EventM::Start(_, _) => skip_m(evs, pos + 1, depth + 1),
            crate::events::EventM::End(_) => {
                if depth <= 1 {
                    Some(pos + 1)
                } else {
                    skip_m(evs, pos + 1, depth - 1)
                }
            },
            _ => skip_m(evs, pos + 1, depth),
        }
    }
}

/// Skip one already-opened subtree: consume events, counting nesting,
/// until the end tag that closes it. Returns exactly the position
/// [`skip_m`] names; running out of events first is a premature end of
/// stream.
fn skip_subtree(evs: &Vec<XmlEvent>, pos: usize) -> (r: Result<usize, XmlError>)
    requires
        pos <= evs@.len(),
    ensures
        match r {
            Ok(p) => pos <= p <= evs@.len() && skip_m(events_model(evs@), pos as int, 1) == Some(
                p as int,
            ),
            Err(e) => e@ is PrematureEnd && skip_m(events_model(evs@), pos as int, 1) is None,
        },
{
    let ghost evm = events_model(evs@);
    let mut cur = pos;
    let mut depth: u128 = 1;
    while cur < evs.len() && depth > 0
        invariant
            pos <= cur <= evs@.len(),
            depth <= 1 + (cur - pos),
            depth == 0 ==> skip_m(evm, pos as int, 1) == Some(cur as int),
            depth > 0 ==> skip_m(evm, cur as int, depth as int) == skip_m(evm, pos as int, 1),
        decreases evs@.len() - cur,
    {
        proof {
            assert(evm[cur as int] == evs@[cur as int]@);
        }
        match &evs[cur] {
            XmlEvent::Start { .. } => {
                depth += 1;
            },
            XmlEvent::End { .. } => {
                depth -= 1;
            },
            _ => {},
        }
        cur += 1;
    }
    if depth == 0 {
        Ok(cur)
    } else {
        Err(XmlError::PrematureEnd)
    }
}

/// Capture one already-opened subtree verbatim: every event up to, and
/// excluding, the end tag that closes it. Returns the captured events and
/// the position after that end tag.
fn capture_body(evs: &Vec<XmlEvent>, pos: usize) -> (r: Result<(Vec<XmlEvent>, usize), XmlError>)
    requires
        pos <= evs@.len(),
    ensures
        match r {
            Ok((data, p)) => {
                &&& pos < p <= evs@.len()
                &&& events_model(data@) == events_model(evs@).subrange(pos as int, p - 1)
                &&& evs@[p - 1]@ is End
                &&& skip_m(events_model(evs@), pos as int, 1) == Some(p as int)
            },
            Err(e) => e@ is PrematureEnd && skip_m(events_model(evs@), pos as int, 1) is None,
        },
{
    let ghost evm = events_model(evs@);
    let mut out: Vec<XmlEvent> = Vec::new();
    let mut cur = pos;
    let mut depth: u128 = 1;
    while cur < evs.len()
        invariant
            pos <= cur <= evs@.len(),
            1 <= depth <= 1 + (cur - pos),
            out@.len() == cur - pos,
            events_model(out@) == events_model(evs@).subrange(pos as int, cur as int),
            skip_m(evm, cur as int, depth as int) == skip_m(evm, pos as int, 1),
        decreases evs@.len() - cur,
    {
        proof {
            assert(evm[cur as int] == evs@[cur as int]@);
        }
        let mut closed = false;
        match &evs[cur] {
            XmlEvent::Start { .. } => {
                depth += 1;
            },
            XmlEvent::End { .. } => {
                depth -= 1;
                if depth == 0 {
                    closed = true;
                }
            },
            _ => {},
        }
        if closed {
            proof {
                assert(evs@[cur as int]@ is End);
                assert(skip_m(evm, pos as int, 1) == Some(cur + 1 as int));
            }
            return Ok((out, cur + 1));
        }
        let ghost before = out@;
        out.push(evs[cur].clone());
        proof {
            assert(events_model(out@) =~= events_model(before).push(evs@[cur as int]@));
            assert(events_model(evs@).subrange(pos as int, cur + 1 as int) =~= events_model(
                evs@,
            ).subrange(pos as int, cur as int).push(events_model(evs@)[cur as int]));
            assert(events_model(evs@)[cur as int] == evs@[cur as int]@);
        }
        cur += 1;
    }
    Err(XmlError::PrematureEnd)
}

/// Store one deserialized item into a field's slot, wrapped by the
/// field's arity: required and optional assignments overwrite (last write
/// wins), repeated items append in stream order.
fn store_item(s: &RecordSchema, vals: &mut Vec<Option<FieldValue>>, fi: usize, item: ItemValue)
    requires
        state_ok(*s, vals_model(old(vals)@)),
        fi < old(vals)@.len(),
        item_fits(s.fields@[fi as int].payload, item@),
        !(s.fields@[fi as int].role is SelfClosedChild),
    ensures
        final(vals)@.len() == old(vals)@.len(),
        state_ok(*s, vals_model(final(vals)@)),
        vals_model(final(vals)@) == vals_model(old(vals)@).update(
            fi as int,
            Some(
                assign_item_m(s.fields@[fi as int], vals_model(old(vals)@)[fi as int], item@),
            ),
        ),
{
    proof {
        lemma_vals_model(vals@);
    }
    let f = &s.fields[fi];
    let ghost old_slot = vals@[fi as int];
    let ghost old_vm = vals_model(vals@);
    let ghost item_m = item_model(item);
    let slot: FieldValue = match f.arity {
        Arity::Required => FieldValue::One(item),
        Arity::Optional => FieldValue::Opt(Some(item)),
        Arity::Repeated => {
            let ghost im = item_model(item);
            let cur = vals.remove(fi);
            let mut items: Vec<ItemValue> = match cur {
                Some(FieldValue::Many(ms)) => ms,
                _ => Vec::new(),
            };
            proof {
                lemma_items_model(items@);
                assert forall|j: int| 0 <= j < items@.len() implies item_fits(
                    f.payload,
                    #[trigger] items_model(items@)[j],
                ) by {
                    assert(vals_model(old(vals)@)[fi as int] == (match old_slot {
                        Some(fv) => Some(field_model(fv)),
                        None => None,
                    }));
                    assert(field_fits(s.fields@[fi as int], FieldM::Many(items_model(items@))));
                    assert(crate::schema::items_fit(f.payload, items_model(items@)));
                }
            }
            let ghost items_before = items@;
            items.push(item);
            proof {
                lemma_items_model(items@);
                lemma_items_model(items_before);
                assert(items@.drop_last() =~= items_before);
                assert forall|j: int| 0 <= j < items_model(items@).len() implies item_fits(
                    f.payload,
                    #[trigger] items_model(items@)[j],
                ) by {
                    if j < items_before.len() {
                        assert(items_model(items@)[j] == item_model(items_before[j]));
                        assert(items_model(items_before)[j] == item_model(items_before[j]));
                    } else {
                        assert(items_model(items@)[j] == item_model(items@[j]));
                        assert(items@[j] == item);
                    }
                }
                assert(crate::schema::items_fit(f.payload, items_model(items@)));
            }
            vals.insert(fi, None);
            FieldValue::Many(items)
        },
    };
    proof {
        lemma_vals_model(vals@);
        assert(field_fits(s.fields@[fi as int], field_model(slot)));
    }
    vals.set(fi, Some(slot));
    proof {
        lemma_vals_model(vals@);
        assert forall|j: int| 0 <= j < vals_model(vals@).len() implies match #[trigger] vals_model(
            vals@,
        )[j] {
            Some(fm) => field_fits(s.fields@[j], fm),
            None => true,
        } by {
            if j != fi as int {
                assert(vals@[j] == old(vals)@[j]);
                assert(vals_model(old(vals)@)[j] == (match old(vals)@[j] {
                    Some(fv) => Some(field_model(fv)),
                    None => None,
                }));
            }
        }
        assert(field_model(slot) == assign_item_m(
            s.fields@[fi as int],
            old_vm[fi as int],
            item_m,
        )) by {
            match s.fields@[fi as int].arity {
                Arity::Repeated => {
                    assert(old_vm[fi as int] == (match old_slot {
                        Some(fv) => Some(field_model(fv)),
                        None => None,
                    }));
                },
                _ => {},
            }
        }
        assert(vals_model(vals@) =~= old_vm.update(
            fi as int,
            Some(assign_item_m(s.fields@[fi as int], old_vm[fi as int], item_m)),
        ));
    }
}

/// Once the attribute fold has failed at a prefix, the whole fold fails
/// with the same error.
proof fn lemma_de_attrs_err_propagates(
    s: RecordSchema,
    vm0: Seq<Option<FieldM>>,
    attrs: Seq<AttrM>,
    j: int,
)
    requires
        0 < j <= attrs.len(),
        de_attrs_m(s, vm0, attrs.subrange(0, j)) is Err,
    ensures
        de_attrs_m(s, vm0, attrs) == de_attrs_m(s, vm0, attrs.subrange(0, j)),
    decreases attrs.len() - j,
{
    if j == attrs.len() {
        assert(attrs.subrange(0, attrs.len() as int) =~= attrs);
    } else {
        let step = attrs.subrange(0, j + 1);
        assert(step.drop_last() =~= attrs.subrange(0, j));
        lemma_de_attrs_err_propagates(s, vm0, attrs, j + 1);
    }
}

/// Index of the first named child field with the given tag, or -1.
pub open spec fn child_idx(fs: Seq<FieldSchema>, name: Seq<u8>) -> int
    decreases fs,
{
    if fs.len() == 0 {
        -1
    } else if fs[0].role is Child && fs[0].name@ == name {
        0
    } else {
        let sub = child_idx(fs.drop_first(), name);
        if sub == -1 {
            -1
        } else {
            1 + sub
        }
    }
}

/// What `child_idx` finds: the first named child with that tag.
pub proof fn lemma_child_idx(fs: Seq<FieldSchema>, name: Seq<u8>)
    ensures
        child_idx(fs, name) == -1 ==> forall|i: int|
            0 <= i < fs.len() ==> !((#[trigger] fs[i].role) is Child && fs[i].name@ == name),
        child_idx(fs, name) != -1 ==> {
            &&& 0 <= child_idx(fs, name) < fs.len()
            &&& fs[child_idx(fs, name)].role is Child
            &&& fs[child_idx(fs, name)].name@ == name
            &&& forall|i: int|
                0 <= i < child_idx(fs, name) ==> !((#[trigger] fs[i].role) is Child && fs[i].name@
                    == name)
        },
    decreases fs,
{
    if fs.len() > 0 && !(fs[0].role is Child && fs[0].name@ == name) {
        lemma_child_idx(fs.drop_first(), name);
        let sub = child_idx(fs.drop_first(), name);
        if sub != -1 {
            assert(fs.drop_first()[sub] == fs[sub + 1]);
        }
        assert forall|i: int|
            0 <= i < (if sub == -1 {
                fs.len() as int
            } else {
                sub + 1
            }) implies !((#[trigger] fs[i].role) is Child && fs[i].name@ == name) by {
            if i > 0 {
                assert(fs.drop_first()[i - 1] == fs[i]);
            }
        }
    }
}

/// Index of the first self-closing-flag field with the given tag, or -1.
pub open spec fn sfc_idx(fs: Seq<FieldSchema>, name: Seq<u8>) -> int
    decreases fs,
{
    if fs.len() == 0 {
        -1
    } else if fs[0].role is SelfClosedChild && fs[0].name@ == name {
        0
    } else {
        let sub = sfc_idx(fs.drop_first(), name);
        if sub == -1 {
            -1
        } else {
            1 + sub
        }
    }
}

/// What `sfc_idx` finds: the first flag field with that tag.
pub proof fn lemma_sfc_idx(fs: Seq<FieldSchema>, name: Seq<u8>)
    ensures
        sfc_idx(fs, name) == -1 ==> forall|i: int|
            0 <= i < fs.len() ==> !((#[trigger] fs[i].role) is SelfClosedChild && fs[i].name@
                == name),
        sfc_idx(fs, name) != -1 ==> {
            &&& 0 <= sfc_idx(fs, name) < fs.len()
            &&& fs[sfc_idx(fs, name)].role is SelfClosedChild
            &&& fs[sfc_idx(fs, name)].name@ == name
            &&& forall|i: int|
                0 <= i < sfc_idx(fs, name) ==> !((#[trigger] fs[i].role) is SelfClosedChild
                    && fs[i].name@ == name)
        },
    decreases fs,
{
    if fs.len() > 0 && !(fs[0].role is SelfClosedChild && fs[0].name@ == name) {
        lemma_sfc_idx(fs.drop_first(), name);
        let sub = sfc_idx(fs.drop_first(), name);
        if sub != -1 {
            assert(fs.drop_first()[sub] == fs[sub + 1]);
        }
        assert forall|i: int|
            0 <= i < (if sub == -1 {
                fs.len() as int
            } else {
                sub + 1
            }) implies !((#[trigger] fs[i].role) is SelfClosedChild && fs[i].name@ == name) by {
            if i > 0 {
                assert(fs.drop_first()[i - 1] == fs[i]);
            }
        }
    }
}

/// Whether this field is an untagged union declaring the given tag.
pub open spec fn uenum_matches(f: FieldSchema, name: Seq<u8>) -> bool {
    &&& (f.role is Untag || f.role is UntaggedEnum)
    &&& f.payload matches Payload::Uni(u) && variant_idx(u.variants@, name) != -1
}

/// Index of the first untagged union field declaring the given tag, or -1.
pub open spec fn uenum_idx(fs: Seq<FieldSchema>, name: Seq<u8>) -> int
    decreases fs,
{
    if fs.len() == 0 {
        -1
    } else if uenum_matches(fs[0], name) {
        0
    } else {
        let sub = uenum_idx(fs.drop_first(), name);
        if sub == -1 {
            -1
        } else {
            1 + sub
        }
    }
}

/// What `uenum_idx` finds: the first matching untagged union field.
pub proof fn lemma_uenum_idx(fs: Seq<FieldSchema>, name: Seq<u8>)
    ensures
        uenum_idx(fs, name) == -1 ==> forall|i: int|
            0 <= i < fs.len() ==> !uenum_matches(#[trigger] fs[i], name),
        uenum_idx(fs, name) != -1 ==> {
            &&& 0 <= uenum_idx(fs, name) < fs.len()
            &&& uenum_matches(fs[uenum_idx(fs, name)], name)
            &&& forall|i: int|
                0 <= i < uenum_idx(fs, name) ==> !uenum_matches(#[trigger] fs[i], name)
        },
    decreases fs,
{
    if fs.len() > 0 && !uenum_matches(fs[0], name) {
        lemma_uenum_idx(fs.drop_first(), name);
        let sub = uenum_idx(fs.drop_first(), name);
        if sub != -1 {
            assert(fs.drop_first()[sub] == fs[sub + 1]);
        }
        assert forall|i: int|
            0 <= i < (if sub == -1 {
                fs.len() as int
            } else {
                sub + 1
            }) implies !uenum_matches(#[trigger] fs[i], name) by {
            if i > 0 {
                assert(fs.drop_first()[i - 1] == fs[i]);
            }
        }
    }
}

/// Whether this field is an untagged struct whose record declares the
/// given tag as a child.
pub open spec fn ustruct_matches(f: FieldSchema, name: Seq<u8>) -> bool {
    &&& f.role is UntaggedStruct
    &&& f.payload matches Payload::Rec(sub) && child_idx(sub.fields@, name) != -1
}

/// Index of the first untagged struct field absorbing the given tag, or -1.
pub open spec fn ustruct_idx(fs: Seq<FieldSchema>, name: Seq<u8>) -> int
    decreases fs,
{
    if fs.len() == 0 {
        -1
    } else if ustruct_matches(fs[0], name) {
        0
    } else {
        let sub = ustruct_idx(fs.drop_first(), name);
        if sub == -1 {
            -1
        } else {
            1 + sub
        }
    }
}

/// What `ustruct_idx` finds: the first absorbing untagged struct field.
pub proof fn lemma_ustruct_idx(fs: Seq<FieldSchema>, name: Seq<u8>)
    ensures
        ustruct_idx(fs, name) == -1 ==> forall|i: int|
            0 <= i < fs.len() ==> !ustruct_matches(#[trigger] fs[i], name),
        ustruct_idx(fs, name) != -1 ==> {
            &&& 0 <= ustruct_idx(fs, name) < fs.len()
            &&& ustruct_matches(fs[ustruct_idx(fs, name)], name)
            &&& forall|i: int|
                0 <= i < ustruct_idx(fs, name) ==> !ustruct_matches(#[trigger] fs[i], name)
        },
    decreases fs,
{
    if fs.len() > 0 && !ustruct_matches(fs[0], name) {
        lemma_ustruct_idx(fs.drop_first(), name);
        let sub = ustruct_idx(fs.drop_first(), name);
        if sub != -1 {
            assert(fs.drop_first()[sub] == fs[sub + 1]);
        }
        assert forall|i: int|
            0 <= i < (if sub == -1 {
                fs.len() as int
            } else {
                sub + 1
            }) implies !ustruct_matches(#[trigger] fs[i], name) by {
            if i > 0 {
                assert(fs.drop_first()[i - 1] == fs[i]);
            }
        }
    }
}

/// Index of the first text field, or -1.
pub open spec fn text_fidx(fs: Seq<FieldSchema>) -> int
    decreases fs,
{
    if fs.len() == 0 {
        -1
    } else if fs[0].role is Text {
        0
    } else {
        let sub = text_fidx(fs.drop_first());
        if sub == -1 {
            -1
        } else {
            1 + sub
        }
    }
}

/// What `text_fidx` finds: the first text field.
pub proof fn lemma_text_fidx(fs: Seq<FieldSchema>)
    ensures
        text_fidx(fs) == -1 ==> forall|i: int|
            0 <= i < fs.len() ==> !((#[trigger] fs[i].role) is Text),
        text_fidx(fs) != -1 ==> {
            &&& 0 <= text_fidx(fs) < fs.len()
            &&& fs[text_fidx(fs)].role is Text
            &&& forall|i: int| 0 <= i < text_fidx(fs) ==> !((#[trigger] fs[i].role) is Text)
        },
    decreases fs,
{
    if fs.len() > 0 && !(fs[0].role is Text) {
        lemma_text_fidx(fs.drop_first());
        let sub = text_fidx(fs.drop_first());
        if sub != -1 {
            assert(fs.drop_first()[sub] == fs[sub + 1]);
        }
        assert forall|i: int|
            0 <= i < (if sub == -1 {
                fs.len() as int
            } else {
                sub + 1
            }) implies !((#[trigger] fs[i].role) is Text) by {
            if i > 0 {
                assert(fs.drop_first()[i - 1] == fs[i]);
            }
        }
    }
}

/// Index of the first text-carrying variant, or -1.
pub open spec fn text_vidx(vs: Seq<crate::schema::VariantSchema>) -> int
    decreases vs,
{
    if vs.len() == 0 {
        -1
    } else if vs[0].kind is Text {
        0
    } else {
        let sub = text_vidx(vs.drop_first());
        if sub == -1 {
            -1
        } else {
            1 + sub
        }
    }
}

/// What `text_vidx` finds: the first text-carrying variant.
pub proof fn lemma_text_vidx(vs: Seq<crate::schema::VariantSchema>)
    ensures
        text_vidx(vs) == -1 ==> forall|i: int|
            0 <= i < vs.len() ==> !((#[trigger] vs[i].kind) is Text),
        text_vidx(vs) != -1 ==> {
            &&& 0 <= text_vidx(vs) < vs.len()
            &&& vs[text_vidx(vs)].kind is Text
            &&& forall|i: int| 0 <= i < text_vidx(vs) ==> !((#[trigger] vs[i].kind) is Text)
        },
    decreases vs,
{
    if vs.len() > 0 && !(vs[0].kind is Text) {
        lemma_text_vidx(vs.drop_first());
        let sub = text_vidx(vs.drop_first());
        if sub != -1 {
            assert(vs.drop_first()[sub] == vs[sub + 1]);
        }
        assert forall|i: int|
            0 <= i < (if sub == -1 {
                vs.len() as int
            } else {
                sub + 1
            }) implies !((#[trigger] vs[i].kind) is Text) by {
            if i > 0 {
                assert(vs.drop_first()[i - 1] == vs[i]);
            }
        }
    }
}

/// One capture routed to an untagged struct: the discovered tag and the
/// subtree recorded under it.
pub struct PendingEntry {
    pub tag: Vec<u8>,
    pub capture: Unparsed,
}

/// Model of one routed capture: the discovered tag, the captured
/// attributes and the captured events.
pub type PendingM = (Seq<u8>, Seq<AttrM>, Seq<crate::events::EventM>);

impl View for PendingEntry {
    type V = PendingM;

    open spec fn view(&self) -> PendingM {
        (self.tag@, attrs_model(self.capture.attrs@), events_model(self.capture.data@))
    }
}

/// Model of one field's capture list.
pub open spec fn entries_model(es: Seq<PendingEntry>) -> Seq<PendingM>
    decreases es,
{
    if es.len() == 0 {
        Seq::empty()
    } else {
        entries_model(es.drop_last()).push(es.last()@)
    }
}

/// `entries_model` is the elementwise model.
pub broadcast proof fn lemma_entries_model(es: Seq<PendingEntry>)
    ensures
        (#[trigger] entries_model(es)).len() == es.len(),
        forall|i: int| 0 <= i < es.len() ==> entries_model(es)[i] == es[i]@,
    decreases es.len(),
{
    if es.len() > 0 {
        lemma_entries_model(es.drop_last());
    }
}

/// Model of the per-field capture lists.
pub open spec fn pend_model(ps: Seq<Vec<PendingEntry>>) -> Seq<Seq<PendingM>>
    decreases ps,
{
    if ps.len() == 0 {
        Seq::empty()
    } else {
        pend_model(ps.drop_last()).push(entries_model(ps.last()@))
    }
}

/// `pend_model` is the elementwise model.
pub broadcast proof fn lemma_pend_model(ps: Seq<Vec<PendingEntry>>)
    ensures
        (#[trigger] pend_model(ps)).len() == ps.len(),
        forall|i: int| 0 <= i < ps.len() ==> pend_model(ps)[i] == entries_model(ps[i]@),
    decreases ps.len(),
{
    if ps.len() > 0 {
        lemma_pend_model(ps.drop_last());
    }
}

/// What a non-scalar payload demands of its description.
pub open spec fn payload_wf(p: Payload) -> bool {
    match p {
        Payload::Scalar(_) => false,
        Payload::Rec(s) => wf_record(*s),
        Payload::Uni(u) => wf_union(*u),
        Payload::Raw => true,
    }
}

/// Index of the first named (non-text) variant with the given tag, or -1.
pub open spec fn variant_idx(vs: Seq<crate::schema::VariantSchema>, name: Seq<u8>) -> int
    decreases vs,
{
    if vs.len() == 0 {
        -1
    } else if !(vs[0].kind is Text) && vs[0].tag@ == name {
        0
    } else {
        let sub = variant_idx(vs.drop_first(), name);
        if sub == -1 {
            -1
        } else {
            1 + sub
        }
    }
}

/// What `variant_idx` finds: the first named variant with that tag.
pub proof fn lemma_variant_idx(vs: Seq<crate::schema::VariantSchema>, name: Seq<u8>)
    ensures
        variant_idx(vs, name) == -1 ==> forall|i: int|
            0 <= i < vs.len() ==> !(!((#[trigger] vs[i].kind) is Text) && vs[i].tag@ == name),
        variant_idx(vs, name) != -1 ==> {
            &&& 0 <= variant_idx(vs, name) < vs.len()
            &&& !(vs[variant_idx(vs, name)].kind is Text)
            &&& vs[variant_idx(vs, name)].tag@ == name
            &&& forall|i: int|
                0 <= i < variant_idx(vs, name) ==> !(!((#[trigger] vs[i].kind) is Text)
                    && vs[i].tag@ == name)
        },
    decreases vs,
{
    if vs.len() > 0 && !(!(vs[0].kind is Text) && vs[0].tag@ == name) {
        lemma_variant_idx(vs.drop_first(), name);
        let sub = variant_idx(vs.drop_first(), name);
        if sub == -1 {
            assert forall|i: int|
                0 <= i < vs.len() implies !(!((#[trigger] vs[i].kind) is Text) && vs[i].tag@
                == name) by {
                if i > 0 {
                    assert(vs.drop_first()[i - 1] == vs[i]);
                }
            }
        } else {
            assert(vs.drop_first()[sub] == vs[sub + 1]);
            assert forall|i: int|
                0 <= i < variant_idx(vs, name) implies !(!((#[trigger] vs[i].kind) is Text)
                && vs[i].tag@ == name) by {
                if i > 0 {
                    assert(vs.drop_first()[i - 1] == vs[i]);
                }
            }
        }
    }
}

/// Find the first named variant with the given tag.
fn find_variant(u: &UnionSchema, name: &[u8]) -> (r: Option<usize>)
    ensures
        match r {
            Some(i) => variant_idx(u.variants@, name@) == i as int && i < u.variants@.len() && !(
            u.variants@[i as int].kind is Text) && u.variants@[i as int].tag@ == name@,
            None => variant_idx(u.variants@, name@) == -1,
        },
{
    let mut i: usize = 0;
    while i < u.variants.len()
        invariant
            0 <= i <= u.variants.len(),
            forall|j: int|
                0 <= j < i ==> !(!((#[trigger] u.variants@[j].kind) is Text) && u.variants@[j].tag@
                    == name@),
        decreases u.variants.len() - i,
    {
        let v = &u.variants[i];
        if !matches!(v.kind, VariantKind::Text(_)) && bytes_eq(v.tag.as_slice(), name) {
            proof {
                lemma_variant_idx(u.variants@, name@);
            }
            return Some(i);
        }
        i += 1;
    }
    proof {
        lemma_variant_idx(u.variants@, name@);
    }
    None
}

/// Deserialize one union value. When the starting tag names a variant
/// directly (the untagged path), that variant is built from the current
/// position. Otherwise (the named-child path) events are scanned until a
/// variant tag or the matching end tag is met; a body with no variant tag
/// is a missing-field failure, as the union then has no value.
pub fn de_union(
    u: &UnionSchema,
    tag: &[u8],
    attrs: &Vec<XmlAttr>,
    is_empty: bool,
    evs: &Vec<XmlEvent>,
    pos: usize,
    fuel: usize,
) -> (r: Result<(UnionValue, usize), XmlError>)
    requires
        wf_union(*u),
        pos <= evs@.len(),
    ensures
        match r {
            Ok((uv, p)) => union_fits(*u, uv@) && pos <= p <= evs@.len(),
            Err(_) => true,
        },
        match de_union_m(
            fuel as nat,
            *u,
            tag@,
            attrs_model(attrs@),
            is_empty,
            events_model(evs@),
            pos as int,
        ) {
            Ok((um, p2)) => r matches Ok((uv, p)) && uv@ == um && p as int == p2,
            Err(em) => r matches Err(e) && e@ == em,
        },
    decreases fuel,
{
    let ghost evm = events_model(evs@);
    if fuel == 0 {
        return Err(XmlError::DepthLimit);
    }
    match find_variant(u, tag) {
        Some(vi) => {
            match &u.variants[vi].kind {
                VariantKind::Unit => {
                    proof {
                        assert(UnionValue { variant: vi, payload: None }@ == UnionM {
                            variant: vi as int,
                            payload: None,
                        });
                    }
                    return Ok((UnionValue { variant: vi, payload: None }, pos));
                },
                VariantKind::Rec(sub) => {
                    match de_record(sub, tag, attrs, is_empty, evs, pos, fuel - 1) {
                        Ok((rv, p)) => {
                            proof {
                                lemma_union_rec_model(vi as int, rv);
                            }
                            return Ok(
                                (
                                    UnionValue {
                                        variant: vi,
                                        payload: Some(ItemValue::Rec(Box::new(rv))),
                                    },
                                    p,
                                ),
                            );
                        },
                        Err(e) => {
                            return Err(e);
                        },
                    }
                },
                VariantKind::Text(_) => {
                    proof {
                        assert(false);
                    }
                },
            }
        },
        None => {},
    }
    if is_empty {
        return Err(XmlError::MissingField(crate::events::slice_to_bytes(tag)));
    }
    let mut cur = pos;
    loop
        invariant
            wf_union(*u),
            pos <= cur <= evs@.len(),
            fuel >= 1,
            evm == events_model(evs@),
            variant_idx(u.variants@, tag@) == -1,
            de_union_loop_m(fuel as nat, *u, tag@, evm, cur as int) == de_union_loop_m(
                fuel as nat,
                *u,
                tag@,
                evm,
                pos as int,
            ),
        decreases evs@.len() - cur,
    {
        if cur >= evs.len() {
            return Err(XmlError::PrematureEnd);
        }
        proof {
            assert(evm[cur as int] == evs@[cur as int]@);
        }
        match &evs[cur] {
            XmlEvent::End { name } => {
                if bytes_eq(name.as_slice(), tag) {
                    return Err(XmlError::MissingField(crate::events::slice_to_bytes(tag)));
                }
            },
            XmlEvent::Start { name, attrs: attrs2 } => {
                match find_variant(u, name.as_slice()) {
                    Some(vi) => {
                        match &u.variants[vi].kind {
                            VariantKind::Unit => {
                                proof {
                                    assert(UnionValue { variant: vi, payload: None }@ == UnionM {
                                        variant: vi as int,
                                        payload: None,
                                    });
                                }
                                return Ok((UnionValue { variant: vi, payload: None }, cur + 1));
                            },
                            VariantKind::Rec(sub) => {
                                match de_record(
                                    sub,
                                    name.as_slice(),
                                    attrs2,
                                    false,
                                    evs,
                                    cur + 1,
                                    fuel - 1,
                                ) {
                                    Ok((rv, p)) => {
                                        proof {
                                            lemma_union_rec_model(vi as int, rv);
                                        }
                                        return Ok(
                                            (
                                                UnionValue {
                                                    variant: vi,
                                                    payload: Some(ItemValue::Rec(Box::new(rv))),
                                                },
                                                p,
                                            ),
                                        );
                                    },
                                    Err(e) => {
                                        return Err(e);
                                    },
                                }
                            },
                            VariantKind::Text(_) => {
                                proof {
                                    assert(false);
                                }
                            },
                        }
                    },
                    None => {},
                }
            },
            XmlEvent::Empty { name, attrs: attrs2 } => {
                match find_variant(u, name.as_slice()) {
                    Some(vi) => {
                        match &u.variants[vi].kind {
                            VariantKind::Unit => {
                                proof {
                                    assert(UnionValue { variant: vi, payload: None }@ == UnionM {
                                        variant: vi as int,
                                        payload: None,
                                    });
                                }
                                return Ok((UnionValue { variant: vi, payload: None }, cur + 1));
                            },
                            VariantKind::Rec(sub) => {
                                match de_record(
                                    sub,
                                    name.as_slice(),
                                    attrs2,
                                    true,
                                    evs,
                                    cur + 1,
                                    fuel - 1,
                                ) {
                                    Ok((rv, p)) => {
                                        proof {
                                            lemma_union_rec_model(vi as int, rv);
                                        }
                                        return Ok(
                                            (
                                                UnionValue {
                                                    variant: vi,
                                                    payload: Some(ItemValue::Rec(Box::new(rv))),
                                                },
                                                p,
                                            ),
                                        );
                                    },
                                    Err(e) => {
                                        return Err(e);
                                    },
                                }
                            },
                            VariantKind::Text(_) => {
                                proof {
                                    assert(false);
                                }
                            },
                        }
                    },
                    None => {},
                }
            },
            XmlEvent::Text { .. } => {},
        }
        cur += 1;
    }
}

/// The model of a union value built from a record payload.
proof fn lemma_union_rec_model(vi: int, rv: RecordValue)
    requires
        vi >= 0,
    ensures
        crate::values::union_model(
            UnionValue {
                variant: vi as usize,
                payload: Some(ItemValue::Rec(Box::new(rv))),
            },
        ) == (UnionM {
            variant: vi as usize as int,
            payload: Some(
                Box::new(ItemM::Rec(RecordM { fields: crate::values::fields_model(rv.fields@) })),
            ),
        }),
{
    assert(item_model(ItemValue::Rec(Box::new(rv))) == ItemM::Rec(crate::values::record_model(rv)));
    assert(crate::values::record_model(rv) == RecordM {
        fields: crate::values::fields_model(rv.fields@),
    });
}

/// Deserialize one item of a child field from the current position: a
/// nested record, a union, or an opaque capture.
fn de_child_item(
    p: &Payload,
    tag: &[u8],
    attrs: &Vec<XmlAttr>,
    is_empty: bool,
    evs: &Vec<XmlEvent>,
    pos: usize,
    fuel: usize,
) -> (r: Result<(ItemValue, usize), XmlError>)
    requires
        payload_wf(*p),
        pos <= evs@.len(),
    ensures
        match r {
            Ok((it, p2)) => item_fits(*p, it@) && pos <= p2 <= evs@.len(),
            Err(_) => true,
        },
        match de_item_m(
            fuel as nat,
            *p,
            tag@,
            attrs_model(attrs@),
            is_empty,
            events_model(evs@),
            pos as int,
        ) {
            Ok((m, p2)) => r matches Ok((it, pr)) && it@ == m && pr as int == p2,
            Err(em) => r matches Err(e) && e@ == em,
        },
    decreases fuel,
{
    if fuel == 0 {
        return Err(XmlError::DepthLimit);
    }
    match p {
        Payload::Rec(sub) => {
            match de_record(sub, tag, attrs, is_empty, evs, pos, fuel - 1) {
                Ok((rv, p2)) => {
                    proof {
                        assert(item_model(ItemValue::Rec(Box::new(rv))) == ItemM::Rec(
                            RecordM { fields: crate::values::fields_model(rv.fields@) },
                        ));
                    }
                    Ok((ItemValue::Rec(Box::new(rv)), p2))
                },
                Err(e) => Err(e),
            }
        },
        Payload::Uni(u) => {
            match de_union(u, tag, attrs, is_empty, evs, pos, fuel - 1) {
                Ok((uv, p2)) => Ok((ItemValue::Uni(Box::new(uv)), p2)),
                Err(e) => Err(e),
            }
        },
        Payload::Raw => {
            if is_empty {
                let it = ItemValue::Raw(
                    Unparsed { attrs: crate::events::clone_attrs(attrs), data: Vec::new() },
                );
                proof {
                    assert(events_model(Seq::<XmlEvent>::empty()) =~= Seq::<
                        crate::events::EventM,
                    >::empty());
                    assert(it@ == ItemM::Raw(
                        crate::values::UnparsedM {
                            attrs: attrs_model(attrs@),
                            data: Seq::empty(),
                        },
                    ));
                }
                Ok((it, pos))
            } else {
                match capture_body(evs, pos) {
                    Ok((data, p2)) => {
                        let it = ItemValue::Raw(
                            Unparsed { attrs: crate::events::clone_attrs(attrs), data },
                        );
                        Ok((it, p2))
                    },
                    Err(e) => Err(e),
                }
            }
        },
        Payload::Scalar(_) => {
            proof {
                assert(false);
            }
            Err(XmlError::Malformed)
        },
    }
}

/// Assign a text event's content, exactly as [`assign_text_m`] says: to
/// the record's text field if it has one, else to the first untagged
/// union whose text variant accepts the content; with neither, the
/// content is ignored.
fn assign_text(
    s: &RecordSchema,
    vals: &mut Vec<Option<FieldValue>>,
    content: &Vec<u8>,
) -> (r: Result<(), XmlError>)
    requires
        wf_record(*s),
        state_ok(*s, vals_model(old(vals)@)),
        old(vals)@.len() == s.fields@.len(),
    ensures
        final(vals)@.len() == old(vals)@.len(),
        state_ok(*s, vals_model(final(vals)@)),
        match r {
            Ok(_) => assign_text_m(*s, vals_model(old(vals)@), content@) == Ok::<_, XmlErrorM>(
                vals_model(final(vals)@),
            ),
            Err(e) => assign_text_m(*s, vals_model(old(vals)@), content@) == Err::<
                Seq<Option<FieldM>>,
                _,
            >(e@),
        },
{
    let ghost vm0 = vals_model(vals@);
    let mut i: usize = 0;
    while i < s.fields.len()
        invariant
            0 <= i <= s.fields@.len(),
            wf_record(*s),
            state_ok(*s, vals_model(vals@)),
            vals@.len() == s.fields@.len(),
            vals_model(vals@) == vm0,
            forall|j: int| 0 <= j < i ==> !((#[trigger] s.fields@[j].role) is Text),
        decreases s.fields@.len() - i,
    {
        let f = &s.fields[i];
        if matches!(f.role, EleType::Text) {
            proof {
                assert(wf_field(s.fields@[i as int]));
                lemma_text_fidx(s.fields@);
                assert(text_fidx(s.fields@) == i as int);
            }
            match &f.payload {
                Payload::Scalar(k) => {
                    match parse_scalar(k, content.as_slice()) {
                        Some(sc) => {
                            proof {
                                crate::scalars::lemma_scalar_parse_fits(*k, content@);
                            }
                            store_item(s, vals, i, ItemValue::Sc(sc));
                            proof {
                                assert(assign_text_m(*s, vm0, content@) == Ok::<_, XmlErrorM>(
                                    vals_model(vals@),
                                ));
                            }
                            return Ok(());
                        },
                        None => {
                            return Err(
                                XmlError::ValueError {
                                    field: clone_bytes(&f.name),
                                    raw: clone_bytes(content),
                                },
                            );
                        },
                    }
                },
                _ => {
                    proof {
                        assert(false);
                    }
                },
            }
        }
        i += 1;
    }
    proof {
        lemma_text_fidx(s.fields@);
        assert(text_fidx(s.fields@) == -1);
    }
    let mut i: usize = 0;
    while i < s.fields.len()
        invariant
            0 <= i <= s.fields@.len(),
            wf_record(*s),
            state_ok(*s, vals_model(vals@)),
            vals@.len() == s.fields@.len(),
            vals_model(vals@) == vm0,
            text_fidx(s.fields@) == -1,
            text_try_m(*s, vm0, content@, 0) == text_try_m(*s, vm0, content@, i as int),
        decreases s.fields@.len() - i,
    {
        let f = &s.fields[i];
        let ghost fm = s.fields@[i as int];
        if matches!(f.role, EleType::Untag | EleType::UntaggedEnum) {
            proof {
                assert(wf_field(fm));
            }
            match &f.payload {
                Payload::Uni(u) => {
                    let mut vi: usize = 0;
                    while vi < u.variants.len()
                        invariant
                            0 <= vi <= u.variants@.len(),
                            wf_record(*s),
                            crate::schema::wf_union(**u),
                            fm == s.fields@[i as int],
                            fm.payload == Payload::Uni(*u),
                            i < s.fields@.len(),
                            fm.role is Untag || fm.role is UntaggedEnum,
                            state_ok(*s, vals_model(vals@)),
                            vals@.len() == s.fields@.len(),
                            vals_model(vals@) == vm0,
                            text_fidx(s.fields@) == -1,
                            text_try_m(*s, vm0, content@, 0) == text_try_m(
                                *s,
                                vm0,
                                content@,
                                i as int,
                            ),
                            forall|vj: int|
                                0 <= vj < vi ==> match (#[trigger] u.variants@[vj]).kind {
                                    VariantKind::Text(k0) => scalar_parse(k0, content@) is None,
                                    _ => true,
                                },
                        decreases u.variants@.len() - vi,
                    {
                        match &u.variants[vi].kind {
                            VariantKind::Text(k) => {
                                match parse_scalar(k, content.as_slice()) {
                                    Some(sc) => {
                                        proof {
                                            crate::scalars::lemma_scalar_parse_fits(*k, content@);
                                            lemma_text_vidx(u.variants@);
                                            assert(text_vidx(u.variants@) == vi as int) by {
                                                let tv = text_vidx(u.variants@);
                                                if tv < vi as int {
                                                    assert(!((u.variants@[tv].kind) is Text
                                                        && (u.variants@[vi as int].kind) is Text));
                                                }
                                            }
                                        }
                                        let item = ItemValue::Uni(
                                            Box::new(
                                                UnionValue {
                                                    variant: vi,
                                                    payload: Some(ItemValue::Sc(sc)),
                                                },
                                            ),
                                        );
                                        proof {
                                            let um = crate::values::union_model(
                                                UnionValue {
                                                    variant: vi,
                                                    payload: Some(ItemValue::Sc(sc)),
                                                },
                                            );
                                            assert(um.variant == vi as int);
                                            assert(um.payload matches Some(b) && *b == ItemM::Sc(
                                                sc@,
                                            ));
                                            assert(u.variants@[vi as int].kind matches
                                                VariantKind::Text(k2) && k2 == *k);
                                            assert(union_fits(**u, um));
                                            assert(item@ == ItemM::Uni(um));
                                            assert(item_fits(s.fields@[i as int].payload, item@));
                                        }
                                        store_item(s, vals, i, item);
                                        proof {
                                            assert(text_try_m(*s, vm0, content@, i as int)
                                                == vals_model(vals@));
                                            assert(assign_text_m(*s, vm0, content@) == Ok::<
                                                _,
                                                XmlErrorM,
                                            >(vals_model(vals@)));
                                        }
                                        return Ok(());
                                    },
                                    None => {},
                                }
                            },
                            _ => {},
                        }
                        vi += 1;
                    }
                    proof {
                        lemma_text_vidx(u.variants@);
                        let tv = text_vidx(u.variants@);
                        if tv != -1 {
                            assert(match u.variants@[tv].kind {
                                VariantKind::Text(k0) => scalar_parse(k0, content@) is None,
                                _ => true,
                            });
                        }
                        assert(text_try_m(*s, vm0, content@, i as int) == text_try_m(
                            *s,
                            vm0,
                            content@,
                            i + 1,
                        ));
                    }
                },
                _ => {
                    proof {
                        assert(false);
                    }
                },
            }
        } else {
            proof {
                assert(text_try_m(*s, vm0, content@, i as int) == text_try_m(
                    *s,
                    vm0,
                    content@,
                    i + 1,
                ));
            }
        }
        i += 1;
    }
    proof {
        assert(text_try_m(*s, vm0, content@, s.fields@.len() as int) == vm0);
        assert(assign_text_m(*s, vm0, content@) == Ok::<_, XmlErrorM>(vm0));
    }
    Ok(())
}

/// Index of the first still-unassigned slot.
pub open spec fn first_none(vm: Seq<Option<FieldM>>) -> int
    decreases vm,
{
    if vm.len() == 0 {
        0
    } else if vm[0] is None {
        0
    } else {
        1 + first_none(vm.drop_first())
    }
}

/// What `first_none` finds when some slot is unassigned.
pub proof fn lemma_first_none(vm: Seq<Option<FieldM>>)
    requires
        exists|i: int| 0 <= i < vm.len() && (#[trigger] vm[i]) is None,
    ensures
        0 <= first_none(vm) < vm.len(),
        vm[first_none(vm)] is None,
        forall|j: int| 0 <= j < first_none(vm) ==> (#[trigger] vm[j]) is Some,
    decreases vm,
{
    if vm.len() > 0 && !(vm[0] is None) {
        let sub = vm.drop_first();
        let w = choose|i: int| 0 <= i < vm.len() && (#[trigger] vm[i]) is None;
        assert(sub[w - 1] is None);
        lemma_first_none(sub);
        assert forall|j: int| 0 <= j < first_none(vm) implies (#[trigger] vm[j]) is Some by {
            if j > 0 {
                assert(sub[j - 1] is Some);
            }
        }
    }
}

/// The exact outcome of deserializing a self-closed element: the
/// attribute fold decides everything. On success every slot must hold a
/// value and the record lists them in order; a slot still unassigned is a
/// missing required field, the first such field named.
pub open spec fn de_empty_m(s: RecordSchema, attrs: Seq<AttrM>) -> Result<Seq<FieldM>, XmlErrorM> {
    match de_attrs_m(s, init_state_m(s.fields@), attrs) {
        Err(e) => Err(e),
        Ok(vm) => assemble_m(s, vm),
    }
}

/// The slot a stored item leaves behind, wrapped by the field's arity:
/// required and optional assignments overwrite, repeated items append to
/// the slot's current list.
pub open spec fn assign_item_m(f: FieldSchema, cur: Option<FieldM>, m: ItemM) -> FieldM {
    match f.arity {
        Arity::Required => FieldM::One(m),
        Arity::Optional => FieldM::Opt(Some(Box::new(m))),
        Arity::Repeated => FieldM::Many(
            (match cur {
                Some(FieldM::Many(ms)) => ms,
                _ => Seq::empty(),
            }).push(m),
        ),
    }
}

/// The fuel every entry point runs the automaton with: far beyond any
/// stream that fits in memory.
pub open spec fn max_fuel() -> nat {
    usize::MAX as nat
}

/// The outcome of a text event offered to the untagged-union fields from
/// `i` on: the first field whose text-carrying variant accepts the
/// content takes it; with no taker the state is unchanged.
pub open spec fn text_try_m(
    s: RecordSchema,
    vm: Seq<Option<FieldM>>,
    content: Seq<u8>,
    i: int,
) -> Seq<Option<FieldM>>
    decreases s.fields@.len() - i,
{
    if i < 0 || i >= s.fields@.len() {
        vm
    } else {
        let f = s.fields@[i];
        let accepted = (f.role is Untag || f.role is UntaggedEnum)
            && match f.payload {
            Payload::Uni(u) => {
                let tv = text_vidx(u.variants@);
                tv != -1 && match u.variants@[tv].kind {
                    VariantKind::Text(k) => scalar_parse(k, content) is Some,
                    _ => false,
                }
            },
            _ => false,
        };
        if accepted {
            match f.payload {
                Payload::Uni(u) => {
                    let tv = text_vidx(u.variants@);
                    match u.variants@[tv].kind {
                        VariantKind::Text(k) => {
                            let sm = scalar_parse(k, content)->0;
                            vm.update(
                                i,
                                Some(
                                    assign_item_m(
                                        f,
                                        vm[i],
                                        ItemM::Uni(
                                            UnionM {
                                                variant: tv,
                                                payload: Some(Box::new(ItemM::Sc(sm))),
                                            },
                                        ),
                                    ),
                                ),
                            )
                        },
                        _ => vm,
                    }
                },
                _ => vm,
            }
        } else {
            text_try_m(s, vm, content, i + 1)
        }
    }
}

/// The outcome of one non-blank text event: the text field takes the
/// converted content — a codec rejection is a fatal conversion error —
/// and a record without a text field offers it to the untagged unions.
pub open spec fn assign_text_m(
    s: RecordSchema,
    vm: Seq<Option<FieldM>>,
    content: Seq<u8>,
) -> Result<Seq<Option<FieldM>>, XmlErrorM> {
    let ti = text_fidx(s.fields@);
    if ti != -1 {
        match s.fields@[ti].payload {
            Payload::Scalar(k) => match scalar_parse(k, content) {
                Some(sm) => Ok(
                    vm.update(ti, Some(assign_item_m(s.fields@[ti], vm[ti], ItemM::Sc(sm)))),
                ),
                None => Err(XmlErrorM::ValueError { field: s.fields@[ti].name@, raw: content }),
            },
            _ => Ok(vm),
        }
    } else {
        Ok(text_try_m(s, vm, content, 0))
    }
}

/// The outcome of deserializing one item of a child field: a nested
/// record, a union, or an opaque capture running to the end tag that
/// closes the subtree.
pub open spec fn de_item_m(
    fuel: nat,
    p: Payload,
    tag: Seq<u8>,
    attrs: Seq<AttrM>,
    is_empty: bool,
    evs: Seq<crate::events::EventM>,
    pos: int,
) -> Result<(ItemM, int), XmlErrorM>
    decreases fuel, 0int, 0int,
{
    if fuel == 0 {
        Err(XmlErrorM::DepthLimit)
    } else {
        match p {
            Payload::Rec(sub) => match de_rec_m(
                (fuel - 1) as nat,
                *sub,
                tag,
                attrs,
                is_empty,
                evs,
                pos,
            ) {
                Ok((fms, p2)) => Ok((ItemM::Rec(RecordM { fields: fms }), p2)),
                Err(e) => Err(e),
            },
            Payload::Uni(u) => match de_union_m(
                (fuel - 1) as nat,
                *u,
                tag,
                attrs,
                is_empty,
                evs,
                pos,
            ) {
                Ok((um, p2)) => Ok((ItemM::Uni(um), p2)),
                Err(e) => Err(e),
            },
            Payload::Raw => {
                if is_empty {
                    Ok((ItemM::Raw(crate::values::UnparsedM { attrs, data: Seq::empty() }), pos))
                } else {
                    match skip_m(evs, pos, 1) {
                        Some(p2) => Ok(
                            (
                                ItemM::Raw(
                                    crate::values::UnparsedM {
                                        attrs,
                                        data: evs.subrange(pos, p2 - 1),
                                    },
                                ),
                                p2,
                            ),
                        ),
                        None => Err(XmlErrorM::PrematureEnd),
                    }
                }
            },
            Payload::Scalar(_) => Err(XmlErrorM::Malformed),
        }
    }
}

/// The outcome of routing one child event: named children first, then
/// untagged-union tags, then untagged-struct tags, first declared match
/// winning; with no match the subtree is skipped whole under the
/// accepting policy and is a fatal unknown-field error under
/// `deny_unknown`.
pub open spec fn dispatch_m(
    fuel: nat,
    s: RecordSchema,
    vm: Seq<Option<FieldM>>,
    pend: Seq<Seq<PendingM>>,
    name: Seq<u8>,
    attrs2: Seq<AttrM>,
    is_empty: bool,
    evs: Seq<crate::events::EventM>,
    after: int,
) -> Result<(Seq<Option<FieldM>>, Seq<Seq<PendingM>>, int), XmlErrorM>
    decreases fuel, 0int, 1int,
{
    if fuel == 0 {
        Err(XmlErrorM::DepthLimit)
    } else {
        let ci = child_idx(s.fields@, name);
        let ui = uenum_idx(s.fields@, name);
        let si = ustruct_idx(s.fields@, name);
        if ci != -1 {
            match de_item_m(
                (fuel - 1) as nat,
                s.fields@[ci].payload,
                name,
                attrs2,
                is_empty,
                evs,
                after,
            ) {
                Ok((m, p)) => Ok(
                    (vm.update(ci, Some(assign_item_m(s.fields@[ci], vm[ci], m))), pend, p),
                ),
                Err(e) => Err(e),
            }
        } else if ui != -1 {
            match s.fields@[ui].payload {
                Payload::Uni(u) => match de_union_m(
                    (fuel - 1) as nat,
                    *u,
                    name,
                    attrs2,
                    is_empty,
                    evs,
                    after,
                ) {
                    Ok((um, p)) => Ok(
                        (
                            vm.update(
                                ui,
                                Some(assign_item_m(s.fields@[ui], vm[ui], ItemM::Uni(um))),
                            ),
                            pend,
                            p,
                        ),
                    ),
                    Err(e) => Err(e),
                },
                _ => Err(XmlErrorM::Malformed),
            }
        } else if si != -1 {
            if is_empty {
                Ok((vm, pend.update(si, pend[si].push((name, attrs2, Seq::empty()))), after))
            } else {
                match skip_m(evs, after, 1) {
                    Some(p) => Ok(
                        (
                            vm,
                            pend.update(
                                si,
                                pend[si].push((name, attrs2, evs.subrange(after, p - 1))),
                            ),
                            p,
                        ),
                    ),
                    None => Err(XmlErrorM::PrematureEnd),
                }
            }
        } else if s.deny_unknown {
            Err(XmlErrorM::UnknownField(name))
        } else if is_empty {
            Ok((vm, pend, after))
        } else {
            match skip_m(evs, after, 1) {
                Some(p) => Ok((vm, pend, p)),
                None => Err(XmlErrorM::PrematureEnd),
            }
        }
    }
}

/// The named-child scan of a union: events pass until a variant tag or
/// the matching end tag; an end tag or exhausted stream without a
/// variant is a failure, as the union then has no value.
pub open spec fn de_union_loop_m(
    fuel: nat,
    u: UnionSchema,
    tag: Seq<u8>,
    evs: Seq<crate::events::EventM>,
    pos: int,
) -> Result<(UnionM, int), XmlErrorM>
    decreases fuel, evs.len() - pos, 0int,
{
    if pos < 0 || pos >= evs.len() {
        Err(XmlErrorM::PrematureEnd)
    } else {
        match evs[pos] {
            crate::events::EventM::End(name) => {
                if name == tag {
                    Err(XmlErrorM::MissingField(tag))
                } else {
                    de_union_loop_m(fuel, u, tag, evs, pos + 1)
                }
            },
            crate::events::EventM::Start(name, attrs2) => {
                let vi = variant_idx(u.variants@, name);
                if vi != -1 {
                    de_union_variant_m(fuel, u, vi, name, attrs2, false, evs, pos + 1)
                } else {
                    de_union_loop_m(fuel, u, tag, evs, pos + 1)
                }
            },
            crate::events::EventM::Empty(name, attrs2) => {
                let vi = variant_idx(u.variants@, name);
                if vi != -1 {
                    de_union_variant_m(fuel, u, vi, name, attrs2, true, evs, pos + 1)
                } else {
                    de_union_loop_m(fuel, u, tag, evs, pos + 1)
                }
            },
            crate::events::EventM::Text(_) => de_union_loop_m(fuel, u, tag, evs, pos + 1),
        }
    }
}

/// The outcome of building one named variant from the current position.
pub open spec fn de_union_variant_m(
    fuel: nat,
    u: UnionSchema,
    vi: int,
    name: Seq<u8>,
    attrs: Seq<AttrM>,
    is_empty: bool,
    evs: Seq<crate::events::EventM>,
    pos: int,
) -> Result<(UnionM, int), XmlErrorM>
    decreases fuel, evs.len() - pos, 0int,
{
    if fuel == 0 {
        Err(XmlErrorM::DepthLimit)
    } else {
        match u.variants@[vi].kind {
            VariantKind::Unit => Ok((UnionM { variant: vi, payload: None }, pos)),
            VariantKind::Rec(sub) => match de_rec_m(
                (fuel - 1) as nat,
                *sub,
                name,
                attrs,
                is_empty,
                evs,
                pos,
            ) {
                Ok((fms, p)) => Ok(
                    (
                        UnionM {
                            variant: vi,
                            payload: Some(Box::new(ItemM::Rec(RecordM { fields: fms }))),
                        },
                        p,
                    ),
                ),
                Err(e) => Err(e),
            },
            VariantKind::Text(_) => Err(XmlErrorM::Malformed),
        }
    }
}

/// The outcome of deserializing one union value: a starting tag that
/// names a variant builds it directly (the untagged path); otherwise the
/// named-child scan runs.
pub open spec fn de_union_m(
    fuel: nat,
    u: UnionSchema,
    tag: Seq<u8>,
    attrs: Seq<AttrM>,
    is_empty: bool,
    evs: Seq<crate::events::EventM>,
    pos: int,
) -> Result<(UnionM, int), XmlErrorM>
    decreases fuel, evs.len() - pos, 1int,
{
    if fuel == 0 {
        Err(XmlErrorM::DepthLimit)
    } else {
        let vi = variant_idx(u.variants@, tag);
        if vi != -1 {
            de_union_variant_m(fuel, u, vi, tag, attrs, is_empty, evs, pos)
        } else if is_empty {
            Err(XmlErrorM::MissingField(tag))
        } else {
            de_union_loop_m(fuel, u, tag, evs, pos)
        }
    }
}

/// The single forward pass over an element's body: each event raises a
/// flag, routes to a field, assigns text or is skipped, until the
/// matching end tag; running out of events first is a premature end.
pub open spec fn de_loop_m(
    fuel: nat,
    s: RecordSchema,
    tag: Seq<u8>,
    evs: Seq<crate::events::EventM>,
    pos: int,
    vm: Seq<Option<FieldM>>,
    pend: Seq<Seq<PendingM>>,
) -> Result<(Seq<Option<FieldM>>, Seq<Seq<PendingM>>, int), XmlErrorM>
    decreases fuel, evs.len() - pos, 2int,
{
    if fuel == 0 {
        Err(XmlErrorM::DepthLimit)
    } else if pos < 0 || pos >= evs.len() {
        Err(XmlErrorM::PrematureEnd)
    } else {
        match evs[pos] {
            crate::events::EventM::End(name) => {
                if name == tag {
                    Ok((vm, pend, pos + 1))
                } else {
                    de_loop_m(fuel, s, tag, evs, pos + 1, vm, pend)
                }
            },
            crate::events::EventM::Empty(name, attrs2) => {
                let fi = sfc_idx(s.fields@, name);
                if fi != -1 {
                    de_loop_m(
                        fuel,
                        s,
                        tag,
                        evs,
                        pos + 1,
                        vm.update(fi, Some(FieldM::Flag(true))),
                        pend,
                    )
                } else {
                    match dispatch_m(
                        (fuel - 1) as nat,
                        s,
                        vm,
                        pend,
                        name,
                        attrs2,
                        true,
                        evs,
                        pos + 1,
                    ) {
                        Ok((vm2, pend2, p2)) => {
                            // routing always moves the position forward; the
                            // guard keeps this recursion well founded
                            if pos < p2 <= evs.len() {
                                de_loop_m(fuel, s, tag, evs, p2, vm2, pend2)
                            } else {
                                Err(XmlErrorM::DepthLimit)
                            }
                        },
                        Err(e) => Err(e),
                    }
                }
            },
            crate::events::EventM::Start(name, attrs2) => {
                match dispatch_m((fuel - 1) as nat, s, vm, pend, name, attrs2, false, evs, pos + 1)
                {
                    Ok((vm2, pend2, p2)) => {
                        // routing always moves the position forward; the
                        // guard keeps this recursion well founded
                        if pos < p2 <= evs.len() {
                            de_loop_m(fuel, s, tag, evs, p2, vm2, pend2)
                        } else {
                            Err(XmlErrorM::DepthLimit)
                        }
                    },
                    Err(e) => Err(e),
                }
            },
            crate::events::EventM::Text(content) => {
                if crate::bytes::all_ws(content) {
                    de_loop_m(fuel, s, tag, evs, pos + 1, vm, pend)
                } else {
                    match assign_text_m(s, vm, content) {
                        Ok(vm2) => de_loop_m(fuel, s, tag, evs, pos + 1, vm2, pend),
                        Err(e) => Err(e),
                    }
                }
            },
        }
    }
}

/// The outcome of routing one capture list into an untagged struct's
/// fields, in capture order: each capture goes to the child field
/// declaring its tag, reinterpreted as one element's content; an
/// unmatched capture is passed over.
pub open spec fn de_pending_fold_m(
    fuel: nat,
    sub: RecordSchema,
    vm: Seq<Option<FieldM>>,
    entries: Seq<PendingM>,
) -> Result<Seq<Option<FieldM>>, XmlErrorM>
    decreases fuel, entries.len(), 0int,
{
    if entries.len() == 0 {
        Ok(vm)
    } else if fuel == 0 {
        Err(XmlErrorM::DepthLimit)
    } else {
        let ent = entries[0];
        let ci = child_idx(sub.fields@, ent.0);
        if ci == -1 {
            de_pending_fold_m(fuel, sub, vm, entries.drop_first())
        } else {
            let evs2 = ent.2.push(crate::events::EventM::End(Seq::empty()));
            match de_item_m(
                (fuel - 1) as nat,
                sub.fields@[ci].payload,
                Seq::empty(),
                ent.1,
                ent.2.len() == 0,
                evs2,
                0,
            ) {
                Ok((m, _)) => de_pending_fold_m(
                    fuel,
                    sub,
                    vm.update(ci, Some(assign_item_m(sub.fields@[ci], vm[ci], m))),
                    entries.drop_first(),
                ),
                Err(e) => Err(e),
            }
        }
    }
}

/// The outcome of building an untagged struct's record from its capture
/// list: defaults, then each capture routed, then assembly.
pub open spec fn de_from_pending_m(
    fuel: nat,
    sub: RecordSchema,
    entries: Seq<PendingM>,
) -> Result<Seq<FieldM>, XmlErrorM>
    decreases fuel, entries.len(), 1int,
{
    if fuel == 0 {
        Err(XmlErrorM::DepthLimit)
    } else {
        match de_pending_fold_m(fuel, sub, init_state_m(sub.fields@), entries) {
            Ok(vm) => assemble_m(sub, vm),
            Err(e) => Err(e),
        }
    }
}

/// The outcome of resolving the untagged-struct accumulators from field
/// `i` on: every non-empty capture list becomes its nested record.
pub open spec fn resolve_pending_m(
    fuel: nat,
    s: RecordSchema,
    vm: Seq<Option<FieldM>>,
    pend: Seq<Seq<PendingM>>,
    i: int,
) -> Result<Seq<Option<FieldM>>, XmlErrorM>
    decreases fuel, s.fields@.len() - i, 2int,
{
    if i < 0 || i >= s.fields@.len() {
        Ok(vm)
    } else {
        let f = s.fields@[i];
        if f.role is UntaggedStruct && 0 <= i < pend.len() && pend[i].len() > 0 {
            if fuel == 0 {
                Err(XmlErrorM::DepthLimit)
            } else {
                match f.payload {
                    Payload::Rec(sub) => match de_from_pending_m(
                        (fuel - 1) as nat,
                        *sub,
                        pend[i],
                    ) {
                        Ok(fms) => resolve_pending_m(
                            fuel,
                            s,
                            vm.update(
                                i,
                                Some(
                                    assign_item_m(f, vm[i], ItemM::Rec(RecordM { fields: fms })),
                                ),
                            ),
                            pend,
                            i + 1,
                        ),
                        Err(e) => Err(e),
                    },
                    _ => Err(XmlErrorM::Malformed),
                }
            }
        } else {
            resolve_pending_m(fuel, s, vm, pend, i + 1)
        }
    }
}

/// The finished record, or the first missing required field: every slot
/// still unassigned belongs to a required field.
pub open spec fn assemble_m(s: RecordSchema, vm: Seq<Option<FieldM>>) -> Result<
    Seq<FieldM>,
    XmlErrorM,
> {
    if forall|i: int| 0 <= i < vm.len() ==> (#[trigger] vm[i]) is Some {
        Ok(Seq::new(vm.len(), |i: int| vm[i]->0))
    } else {
        Err(XmlErrorM::MissingField(s.fields@[first_none(vm)].name@))
    }
}

/// The whole outcome of deserializing one record: defaults, the eager
/// attribute pass, the forward body pass unless the element was
/// self-closed, the untagged-struct resolution and the assembly.
pub open spec fn de_rec_m(
    fuel: nat,
    s: RecordSchema,
    tag: Seq<u8>,
    attrs: Seq<AttrM>,
    is_empty: bool,
    evs: Seq<crate::events::EventM>,
    pos: int,
) -> Result<(Seq<FieldM>, int), XmlErrorM>
    decreases fuel, evs.len() - pos, 3int,
{
    if fuel == 0 {
        Err(XmlErrorM::DepthLimit)
    } else {
        match de_attrs_m(s, init_state_m(s.fields@), attrs) {
            Err(e) => Err(e),
            Ok(vm0) => {
                let pend0 = Seq::new(s.fields@.len(), |i: int| Seq::<PendingM>::empty());
                let looped = if is_empty {
                    Ok((vm0, pend0, pos))
                } else {
                    de_loop_m(fuel, s, tag, evs, pos, vm0, pend0)
                };
                match looped {
                    Err(e) => Err(e),
                    Ok((vm1, pend1, p1)) => match resolve_pending_m(
                        (fuel - 1) as nat,
                        s,
                        vm1,
                        pend1,
                        0,
                    ) {
                        Err(e) => Err(e),
                        Ok(vm2) => match assemble_m(s, vm2) {
                            Ok(fms) => Ok((fms, p1)),
                            Err(e) => Err(e),
                        },
                    },
                }
            },
        }
    }
}

/// Route one child event (a start or empty element inside the body) to
/// its field: named children first, then untagged-union tags, then
/// untagged-struct tags, first match winning in field order. With no
/// match, the subtree is skipped whole under the accepting policy and is
/// a fatal unknown-field error under `deny_unknown`. Returns the position
/// after the consumed subtree.
#[verifier::rlimit(100)]
fn dispatch_child(
    s: &RecordSchema,
    vals: &mut Vec<Option<FieldValue>>,
    pending: &mut Vec<Vec<PendingEntry>>,
    name: &Vec<u8>,
    attrs2: &Vec<XmlAttr>,
    is_empty: bool,
    evs: &Vec<XmlEvent>,
    after: usize,
    fuel: usize,
) -> (r: Result<usize, XmlError>)
    requires
        wf_record(*s),
        state_ok(*s, vals_model(old(vals)@)),
        old(vals)@.len() == s.fields@.len(),
        old(pending)@.len() == s.fields@.len(),
        1 <= after <= evs@.len(),
    ensures
        final(vals)@.len() == old(vals)@.len(),
        final(pending)@.len() == old(pending)@.len(),
        state_ok(*s, vals_model(final(vals)@)),
        match r {
            Ok(p) => after <= p <= evs@.len(),
            Err(_) => true,
        },
        match dispatch_m(
            fuel as nat,
            *s,
            vals_model(old(vals)@),
            pend_model(old(pending)@),
            name@,
            attrs_model(attrs2@),
            is_empty,
            events_model(evs@),
            after as int,
        ) {
            Ok((vm2, pend2, p2)) => r matches Ok(p) && vm2 == vals_model(final(vals)@) && pend2
                == pend_model(final(pending)@) && p as int == p2,
            Err(em) => r matches Err(e) && e@ == em,
        },
    decreases fuel,
{
    let ghost evm = events_model(evs@);
    let ghost vm0 = vals_model(vals@);
    let ghost pend0 = pend_model(pending@);
    proof {
        lemma_pend_model(pending@);
    }
    if fuel == 0 {
        return Err(XmlError::DepthLimit);
    }
    // named children
    let mut i: usize = 0;
    while i < s.fields.len()
        invariant
            0 <= i <= s.fields@.len(),
            wf_record(*s),
            state_ok(*s, vals_model(vals@)),
            vals@.len() == s.fields@.len(),
            pending@.len() == s.fields@.len(),
            vals_model(vals@) == vm0,
            pend_model(pending@) == pend0,
            forall|j: int|
                0 <= j < i ==> !((#[trigger] s.fields@[j].role) is Child && s.fields@[j].name@
                    == name@),
        decreases s.fields@.len() - i,
    {
        let f = &s.fields[i];
        if matches!(f.role, EleType::Child) && bytes_eq(f.name.as_slice(), name.as_slice()) {
            proof {
                assert(wf_field(s.fields@[i as int]));
                lemma_child_idx(s.fields@, name@);
                assert(child_idx(s.fields@, name@) == i as int);
            }
            match de_child_item(&f.payload, name.as_slice(), attrs2, is_empty, evs, after, fuel - 1)
            {
                Ok((item, p)) => {
                    store_item(s, vals, i, item);
                    proof {
                        assert(dispatch_m(
                            fuel as nat,
                            *s,
                            vm0,
                            pend0,
                            name@,
                            attrs_model(attrs2@),
                            is_empty,
                            evm,
                            after as int,
                        ) == Ok::<_, XmlErrorM>(
                            (vals_model(vals@), pend_model(pending@), p as int),
                        ));
                    }
                    return Ok(p);
                },
                Err(e) => {
                    return Err(e);
                },
            }
        }
        i += 1;
    }
    proof {
        lemma_child_idx(s.fields@, name@);
        assert(child_idx(s.fields@, name@) == -1);
    }
    // untagged unions
    let mut i: usize = 0;
    while i < s.fields.len()
        invariant
            0 <= i <= s.fields@.len(),
            wf_record(*s),
            state_ok(*s, vals_model(vals@)),
            vals@.len() == s.fields@.len(),
            pending@.len() == s.fields@.len(),
            vals_model(vals@) == vm0,
            pend_model(pending@) == pend0,
            child_idx(s.fields@, name@) == -1,
            forall|j: int| 0 <= j < i ==> !uenum_matches(#[trigger] s.fields@[j], name@),
        decreases s.fields@.len() - i,
    {
        let f = &s.fields[i];
        if matches!(f.role, EleType::Untag | EleType::UntaggedEnum) {
            proof {
                assert(wf_field(s.fields@[i as int]));
            }
            match &f.payload {
                Payload::Uni(u) => {
                    if find_variant(u, name.as_slice()).is_some() {
                        proof {
                            assert(uenum_matches(s.fields@[i as int], name@));
                            lemma_uenum_idx(s.fields@, name@);
                            assert(uenum_idx(s.fields@, name@) == i as int);
                        }
                        match de_union(u, name.as_slice(), attrs2, is_empty, evs, after, fuel - 1) {
                            Ok((uv, p)) => {
                                let item = ItemValue::Uni(Box::new(uv));
                                proof {
                                    assert(item_fits(s.fields@[i as int].payload, item@));
                                }
                                store_item(s, vals, i, item);
                                proof {
                                    assert(dispatch_m(
                                        fuel as nat,
                                        *s,
                                        vm0,
                                        pend0,
                                        name@,
                                        attrs_model(attrs2@),
                                        is_empty,
                                        evm,
                                        after as int,
                                    ) == Ok::<_, XmlErrorM>(
                                        (vals_model(vals@), pend_model(pending@), p as int),
                                    ));
                                }
                                return Ok(p);
                            },
                            Err(e) => {
                                return Err(e);
                            },
                        }
                    }
                },
                _ => {
                    proof {
                        assert(false);
                    }
                },
            }
        }
        i += 1;
    }
    proof {
        lemma_uenum_idx(s.fields@, name@);
        assert(uenum_idx(s.fields@, name@) == -1);
    }
    // untagged structs
    let mut i: usize = 0;
    while i < s.fields.len()
        invariant
            0 <= i <= s.fields@.len(),
            wf_record(*s),
            state_ok(*s, vals_model(vals@)),
            vals@.len() == s.fields@.len(),
            pending@.len() == s.fields@.len(),
            vals_model(vals@) == vm0,
            pend_model(pending@) == pend0,
            child_idx(s.fields@, name@) == -1,
            uenum_idx(s.fields@, name@) == -1,
            forall|j: int| 0 <= j < i ==> !ustruct_matches(#[trigger] s.fields@[j], name@),
        decreases s.fields@.len() - i,
    {
        let f = &s.fields[i];
        if matches!(f.role, EleType::UntaggedStruct) {
            proof {
                assert(wf_field(s.fields@[i as int]));
            }
            match &f.payload {
                Payload::Rec(sub) => {
                    let mut j: usize = 0;
                    while j < sub.fields.len()
                        invariant
                            0 <= j <= sub.fields@.len(),
                            wf_record(*s),
                            state_ok(*s, vals_model(vals@)),
                            vals@.len() == s.fields@.len(),
                            pending@.len() == s.fields@.len(),
                            vals_model(vals@) == vm0,
                            pend_model(pending@) == pend0,
                            child_idx(s.fields@, name@) == -1,
                            uenum_idx(s.fields@, name@) == -1,
                            i < s.fields@.len(),
                            s.fields@[i as int].role is UntaggedStruct,
                            s.fields@[i as int].payload == Payload::Rec(*sub),
                            forall|k: int|
                                0 <= k < i ==> !ustruct_matches(#[trigger] s.fields@[k], name@),
                            forall|cj: int|
                                0 <= cj < j ==> !((#[trigger] sub.fields@[cj].role) is Child
                                    && sub.fields@[cj].name@ == name@),
                        decreases sub.fields@.len() - j,
                    {
                        let cf = &sub.fields[j];
                        if matches!(cf.role, EleType::Child) && bytes_eq(
                            cf.name.as_slice(),
                            name.as_slice(),
                        ) {
                            proof {
                                lemma_child_idx(sub.fields@, name@);
                                assert(ustruct_matches(s.fields@[i as int], name@));
                                lemma_ustruct_idx(s.fields@, name@);
                                assert(ustruct_idx(s.fields@, name@) == i as int);
                            }
                            let (data, p) = if is_empty {
                                (Vec::new(), after)
                            } else {
                                match capture_body(evs, after) {
                                    Ok(dp) => dp,
                                    Err(e) => {
                                        return Err(e);
                                    },
                                }
                            };
                            let ghost data_m = events_model(data@);
                            proof {
                                if is_empty {
                                    assert(data_m =~= Seq::<crate::events::EventM>::empty());
                                }
                            }
                            let entry = PendingEntry {
                                tag: clone_bytes(name),
                                capture: Unparsed {
                                    attrs: crate::events::clone_attrs(attrs2),
                                    data,
                                },
                            };
                            proof {
                                assert(entry@ == (name@, attrs_model(attrs2@), data_m));
                                lemma_pend_model(pending@);
                            }
                            let ghost pend_before = pending@;
                            let mut lst = pending.remove(i);
                            let ghost lst_before = lst@;
                            lst.push(entry);
                            proof {
                                lemma_entries_model(lst@);
                                lemma_entries_model(lst_before);
                                assert(lst@.drop_last() =~= lst_before);
                                assert(entries_model(lst@) == entries_model(lst_before).push(
                                    entry@,
                                ));
                            }
                            pending.insert(i, lst);
                            proof {
                                assert(pending@ =~= pend_before.update(i as int, pending@[i as int]));
                                lemma_pend_model(pending@);
                                lemma_pend_model(pend_before);
                                assert(pend_model(pending@) =~= pend0.update(
                                    i as int,
                                    pend0[i as int].push((name@, attrs_model(attrs2@), data_m)),
                                ));
                                assert(dispatch_m(
                                    fuel as nat,
                                    *s,
                                    vm0,
                                    pend0,
                                    name@,
                                    attrs_model(attrs2@),
                                    is_empty,
                                    evm,
                                    after as int,
                                ) == Ok::<_, XmlErrorM>(
                                    (vals_model(vals@), pend_model(pending@), p as int),
                                ));
                            }
                            return Ok(p);
                        }
                        j += 1;
                    }
                    proof {
                        lemma_child_idx(sub.fields@, name@);
                        assert(child_idx(sub.fields@, name@) == -1);
                        assert(!ustruct_matches(s.fields@[i as int], name@));
                    }
                },
                _ => {
                    proof {
                        assert(false);
                    }
                },
            }
        }
        i += 1;
    }
    proof {
        lemma_ustruct_idx(s.fields@, name@);
        assert(ustruct_idx(s.fields@, name@) == -1);
    }
    // unknown
    if s.deny_unknown {
        return Err(XmlError::UnknownField(clone_bytes(name)));
    }
    if is_empty {
        Ok(after)
    } else {
        skip_subtree(evs, after)
    }
}

/// Resolve the untagged-struct accumulators, exactly as
/// [`resolve_pending_m`] says: each capture list with at least one entry
/// becomes the nested record, built by routing every captured subtree to
/// the child field that declared its tag.
fn resolve_pending(
    s: &RecordSchema,
    vals: &mut Vec<Option<FieldValue>>,
    pending: &Vec<Vec<PendingEntry>>,
    fuel: usize,
) -> (r: Result<(), XmlError>)
    requires
        wf_record(*s),
        state_ok(*s, vals_model(old(vals)@)),
        old(vals)@.len() == s.fields@.len(),
        pending@.len() == s.fields@.len(),
    ensures
        final(vals)@.len() == old(vals)@.len(),
        state_ok(*s, vals_model(final(vals)@)),
        match r {
            Ok(_) => resolve_pending_m(
                fuel as nat,
                *s,
                vals_model(old(vals)@),
                pend_model(pending@),
                0,
            ) == Ok::<_, XmlErrorM>(vals_model(final(vals)@)),
            Err(e) => resolve_pending_m(
                fuel as nat,
                *s,
                vals_model(old(vals)@),
                pend_model(pending@),
                0,
            ) == Err::<Seq<Option<FieldM>>, _>(e@),
        },
    decreases fuel,
{
    let ghost vm0 = vals_model(vals@);
    let ghost pendm = pend_model(pending@);
    proof {
        lemma_pend_model(pending@);
    }
    let mut i: usize = 0;
    while i < s.fields.len()
        invariant
            0 <= i <= s.fields@.len(),
            wf_record(*s),
            state_ok(*s, vals_model(vals@)),
            vals@.len() == s.fields@.len(),
            pending@.len() == s.fields@.len(),
            pendm == pend_model(pending@),
            resolve_pending_m(fuel as nat, *s, vm0, pendm, 0) == resolve_pending_m(
                fuel as nat,
                *s,
                vals_model(vals@),
                pendm,
                i as int,
            ),
        decreases s.fields@.len() - i,
    {
        let f = &s.fields[i];
        proof {
            lemma_pend_model(pending@);
            lemma_entries_model(pending@[i as int]@);
            assert(pendm[i as int].len() == pending@[i as int]@.len());
        }
        if matches!(f.role, EleType::UntaggedStruct) && pending[i].len() > 0 {
            proof {
                assert(wf_field(s.fields@[i as int]));
            }
            if fuel == 0 {
                return Err(XmlError::DepthLimit);
            }
            match &f.payload {
                Payload::Rec(sub) => {
                    match de_from_pending(sub, &pending[i], fuel - 1) {
                        Ok(rv) => {
                            let item = ItemValue::Rec(Box::new(rv));
                            proof {
                                assert(item_fits(s.fields@[i as int].payload, item@));
                                assert(item@ == ItemM::Rec(
                                    RecordM {
                                        fields: crate::values::fields_model(rv.fields@),
                                    },
                                ));
                            }
                            store_item(s, vals, i, item);
                        },
                        Err(e) => {
                            return Err(e);
                        },
                    }
                },
                _ => {
                    proof {
                        assert(false);
                    }
                },
            }
        }
        i += 1;
    }
    Ok(())
}

/// Build an untagged struct's record from its accumulated captures,
/// exactly as [`de_from_pending_m`] says: every field starts at its
/// default, each capture is routed to the child field declaring its tag,
/// and every required field must end with a value.
fn de_from_pending(
    s: &RecordSchema,
    entries: &Vec<PendingEntry>,
    fuel: usize,
) -> (r: Result<RecordValue, XmlError>)
    requires
        wf_record(*s),
    ensures
        match r {
            Ok(v) => record_fits(*s, v@) && de_from_pending_m(
                fuel as nat,
                *s,
                entries_model(entries@),
            ) == Ok::<_, XmlErrorM>(v@.fields),
            Err(e) => de_from_pending_m(fuel as nat, *s, entries_model(entries@)) == Err::<
                Seq<FieldM>,
                _,
            >(e@),
        },
    decreases fuel,
{
    if fuel == 0 {
        return Err(XmlError::DepthLimit);
    }
    let ghost em = entries_model(entries@);
    proof {
        lemma_entries_model(entries@);
    }
    let mut vals = init_state(s);
    proof {
        assert(em.skip(0) =~= em);
    }
    let mut e: usize = 0;
    while e < entries.len()
        invariant
            0 <= e <= entries@.len(),
            wf_record(*s),
            fuel >= 1,
            em == entries_model(entries@),
            em.len() == entries@.len(),
            state_ok(*s, vals_model(vals@)),
            vals@.len() == s.fields@.len(),
            de_pending_fold_m(fuel as nat, *s, init_state_m(s.fields@), em)
                == de_pending_fold_m(fuel as nat, *s, vals_model(vals@), em.skip(e as int)),
        decreases entries@.len() - e,
    {
        let entry = &entries[e];
        let ghost suffix = em.skip(e as int);
        proof {
            lemma_entries_model(entries@);
            assert(suffix.len() == em.len() - e);
            assert(suffix[0] == em[e as int]);
            assert(em[e as int] == entries@[e as int]@);
            assert(suffix.drop_first() =~= em.skip(e + 1));
        }
        let mut i: usize = 0;
        let mut routed = false;
        while i < s.fields.len() && !routed
            invariant
                0 <= i <= s.fields@.len(),
                wf_record(*s),
                fuel >= 1,
                e < entries@.len(),
                em == entries_model(entries@),
                em.len() == entries@.len(),
                suffix == em.skip(e as int),
                suffix.len() > 0,
                suffix[0] == entries@[e as int]@,
                suffix.drop_first() =~= em.skip(e + 1),
                state_ok(*s, vals_model(vals@)),
                vals@.len() == s.fields@.len(),
                routed ==> de_pending_fold_m(fuel as nat, *s, init_state_m(s.fields@), em)
                    == de_pending_fold_m(fuel as nat, *s, vals_model(vals@), em.skip(e + 1)),
                !routed ==> de_pending_fold_m(fuel as nat, *s, init_state_m(s.fields@), em)
                    == de_pending_fold_m(fuel as nat, *s, vals_model(vals@), suffix),
                !routed ==> forall|j: int|
                    0 <= j < i ==> !((#[trigger] s.fields@[j].role) is Child && s.fields@[j].name@
                        == entries@[e as int].tag@),
            decreases s.fields@.len() - i + (if routed {
                0int
            } else {
                1int
            }),
        {
            let f = &s.fields[i];
            if matches!(f.role, EleType::Child) && bytes_eq(
                f.name.as_slice(),
                entry.tag.as_slice(),
            ) {
                proof {
                    assert(wf_field(s.fields@[i as int]));
                    lemma_child_idx(s.fields@, entries@[e as int].tag@);
                    assert(child_idx(s.fields@, entries@[e as int].tag@) == i as int);
                }
                let mut evs2: Vec<XmlEvent> = Vec::new();
                let mut d: usize = 0;
                while d < entry.capture.data.len()
                    invariant
                        0 <= d <= entry.capture.data@.len(),
                        evs2@.len() == d,
                        events_model(evs2@) == events_model(entry.capture.data@).subrange(
                            0,
                            d as int,
                        ),
                    decreases entry.capture.data@.len() - d,
                {
                    let ghost evs2_before = evs2@;
                    evs2.push(entry.capture.data[d].clone());
                    proof {
                        assert(events_model(evs2@) =~= events_model(evs2_before).push(
                            entry.capture.data@[d as int]@,
                        ));
                        assert(events_model(entry.capture.data@).subrange(0, d + 1 as int)
                            =~= events_model(entry.capture.data@).subrange(0, d as int).push(
                            events_model(entry.capture.data@)[d as int],
                        ));
                    }
                    d += 1;
                }
                let was_empty = evs2.len() == 0;
                let ghost evs2_before = evs2@;
                let end_name: Vec<u8> = Vec::new();
                proof {
                    assert(end_name@ =~= Seq::<u8>::empty());
                }
                evs2.push(XmlEvent::End { name: end_name });
                proof {
                    assert(events_model(entry.capture.data@).subrange(
                        0,
                        entry.capture.data@.len() as int,
                    ) =~= events_model(entry.capture.data@));
                    assert(evs2@.last()@ == crate::events::EventM::End(Seq::<u8>::empty()));
                    assert(events_model(evs2@) =~= events_model(entry.capture.data@).push(
                        crate::events::EventM::End(Seq::empty()),
                    ));
                    assert(entries@[e as int]@.2 == events_model(entry.capture.data@));
                }
                let empty_tag: Vec<u8> = Vec::new();
                match de_child_item(
                    &f.payload,
                    empty_tag.as_slice(),
                    &entry.capture.attrs,
                    was_empty,
                    &evs2,
                    0,
                    fuel - 1,
                ) {
                    Ok((item, _)) => {
                        proof {
                            assert(empty_tag@ =~= Seq::<u8>::empty());
                        }
                        store_item(s, &mut vals, i, item);
                        proof {
                            assert(de_pending_fold_m(fuel as nat, *s, init_state_m(s.fields@), em)
                                == de_pending_fold_m(
                                fuel as nat,
                                *s,
                                vals_model(vals@),
                                em.skip(e + 1),
                            ));
                        }
                        routed = true;
                    },
                    Err(err) => {
                        proof {
                            assert(empty_tag@ =~= Seq::<u8>::empty());
                            assert(de_pending_fold_m(fuel as nat, *s, init_state_m(s.fields@), em)
                                == Err::<Seq<Option<FieldM>>, _>(err@));
                        }
                        return Err(err);
                    },
                }
            } else {
                i += 1;
            }
        }
        proof {
            if !routed {
                lemma_child_idx(s.fields@, entries@[e as int].tag@);
                assert(child_idx(s.fields@, entries@[e as int].tag@) == -1);
                assert(de_pending_fold_m(fuel as nat, *s, init_state_m(s.fields@), em)
                    == de_pending_fold_m(fuel as nat, *s, vals_model(vals@), em.skip(e + 1)));
            }
        }
        e += 1;
    }
    proof {
        assert(em.skip(em.len() as int) =~= Seq::<PendingM>::empty());
        assert(de_pending_fold_m(fuel as nat, *s, init_state_m(s.fields@), em) == Ok::<
            _,
            XmlErrorM,
        >(vals_model(vals@)));
    }
    assemble(s, vals)
}

/// Assemble the finished record: every slot still unassigned belongs to a
/// required field and is a fatal missing-field error; the rest take what
/// they hold.
fn assemble(s: &RecordSchema, vals: Vec<Option<FieldValue>>) -> (r: Result<RecordValue, XmlError>)
    requires
        wf_record(*s),
        state_ok(*s, vals_model(vals@)),
    ensures
        match r {
            Ok(v) => {
                &&& record_fits(*s, v@)
                &&& v@.fields.len() == vals@.len()
                &&& forall|i: int|
                    0 <= i < vals@.len() ==> vals_model(vals@)[i] == Some(#[trigger] v@.fields[i])
                &&& assemble_m(*s, vals_model(vals@)) == Ok::<_, XmlErrorM>(v@.fields)
            },
            Err(e) => assemble_m(*s, vals_model(vals@)) == Err::<Seq<FieldM>, _>(e@),
        },
{
    let ghost orig = vals@;
    proof {
        lemma_vals_model(orig);
    }
    let mut vals = vals;
    let mut fields: Vec<FieldValue> = Vec::new();
    let mut i: usize = 0;
    while i < s.fields.len()
        invariant
            0 <= i <= s.fields@.len(),
            wf_record(*s),
            state_ok(*s, vals_model(orig)),
            orig.len() == s.fields@.len(),
            vals@ =~= orig.subrange(i as int, orig.len() as int),
            fields@.len() == i,
            crate::values::fields_model(fields@) =~= Seq::new(
                i as nat,
                |j: int|
                    match orig[j] {
                        Some(fv) => field_model(fv),
                        None => FieldM::Flag(false),
                    },
            ),
            forall|j: int| 0 <= j < i ==> orig[j] is Some,
        decreases s.fields@.len() - i,
    {
        let slot = vals.remove(0);
        match slot {
            Some(fv) => {
                let ghost fields_before = fields@;
                fields.push(fv);
                proof {
                    lemma_fields_model(fields@);
                    lemma_fields_model(fields_before);
                    assert(fields@.drop_last() =~= fields_before);
                    assert(crate::values::fields_model(fields@) =~= Seq::new(
                        (i + 1) as nat,
                        |j: int|
                            match orig[j] {
                                Some(fv2) => field_model(fv2),
                                None => FieldM::Flag(false),
                            },
                    ));
                }
            },
            None => {
                proof {
                    lemma_vals_model(orig);
                    assert(orig[i as int] is None);
                    assert(vals_model(orig)[i as int] is None);
                    lemma_first_none(vals_model(orig));
                    let fnone = first_none(vals_model(orig));
                    assert(fnone == i as int) by {
                        if fnone < i as int {
                            assert(orig[fnone] is Some);
                            assert(vals_model(orig)[fnone] == (match orig[fnone] {
                                Some(fv) => Some(field_model(fv)),
                                None => None,
                            }));
                        }
                        if fnone > i as int {
                            assert(vals_model(orig)[i as int] is Some);
                        }
                    }
                    assert(assemble_m(*s, vals_model(orig)) == Err::<Seq<FieldM>, _>(
                        XmlErrorM::MissingField(s.fields@[i as int].name@),
                    ));
                }
                return Err(XmlError::MissingField(clone_bytes(&s.fields[i].name)));
            },
        }
        proof {
            assert(vals@ =~= orig.subrange(i + 1 as int, orig.len() as int));
        }
        i += 1;
    }
    proof {
        lemma_fields_model(fields@);
        lemma_vals_model(orig);
        assert forall|j: int|
            0 <= j < crate::values::fields_model(fields@).len() implies field_fits(
            s.fields@[j],
            #[trigger] crate::values::fields_model(fields@)[j],
        ) by {
            assert(orig[j] is Some);
            assert(vals_model(orig)[j] == (match orig[j] {
                Some(fv) => Some(field_model(fv)),
                None => None,
            }));
        }
        assert(crate::schema::fields_fit(
            *s,
            crate::values::fields_model(fields@),
        ));
        let vm = vals_model(orig);
        assert forall|j: int| 0 <= j < vm.len() implies (#[trigger] vm[j]) is Some by {
            assert(orig[j] is Some);
            assert(vm[j] == (match orig[j] {
                Some(fv) => Some(field_model(fv)),
                None => None,
            }));
        }
        assert forall|j: int|
            0 <= j < vm.len() implies (#[trigger] vm[j])->0 == crate::values::fields_model(
            fields@,
        )[j] by {
            assert(vm[j] == (match orig[j] {
                Some(fv) => Some(field_model(fv)),
                None => None,
            }));
        }
        assert(Seq::new(vm.len(), |j: int| vm[j]->0) =~= crate::values::fields_model(fields@));
        assert(assemble_m(*s, vm) == Ok::<_, XmlErrorM>(crate::values::fields_model(fields@)));
    }
    Ok(RecordValue { fields })
}

/// Raise the first self-closing flag named by an empty element; reports
/// whether one matched, leaving the state untouched otherwise.
fn set_flag(s: &RecordSchema, vals: &mut Vec<Option<FieldValue>>, name: &Vec<u8>) -> (r: bool)
    requires
        wf_record(*s),
        state_ok(*s, vals_model(old(vals)@)),
        old(vals)@.len() == s.fields@.len(),
    ensures
        final(vals)@.len() == old(vals)@.len(),
        state_ok(*s, vals_model(final(vals)@)),
        sfc_idx(s.fields@, name@) != -1 ==> r && vals_model(final(vals)@) == vals_model(
            old(vals)@,
        ).update(sfc_idx(s.fields@, name@), Some(FieldM::Flag(true))),
        sfc_idx(s.fields@, name@) == -1 ==> !r && vals_model(final(vals)@) == vals_model(
            old(vals)@,
        ),
{
    let mut fi: usize = 0;
    while fi < s.fields.len()
        invariant
            0 <= fi <= s.fields@.len(),
            wf_record(*s),
            state_ok(*s, vals_model(vals@)),
            vals@.len() == s.fields@.len(),
            vals_model(vals@) == vals_model(old(vals)@),
            forall|j: int|
                0 <= j < fi ==> !((#[trigger] s.fields@[j].role) is SelfClosedChild
                    && s.fields@[j].name@ == name@),
        decreases s.fields@.len() - fi,
    {
        let f = &s.fields[fi];
        if matches!(f.role, EleType::SelfClosedChild) && bytes_eq(
            f.name.as_slice(),
            name.as_slice(),
        ) {
            proof {
                lemma_sfc_idx(s.fields@, name@);
                assert(sfc_idx(s.fields@, name@) == fi as int);
            }
            let ghost vals_before = vals@;
            proof {
                lemma_vals_model(vals@);
            }
            vals.set(fi, Some(FieldValue::Flag(true)));
            proof {
                lemma_vals_model(vals@);
                lemma_vals_model(vals_before);
                assert forall|j: int|
                    0 <= j < vals_model(vals@).len() implies match #[trigger] vals_model(
                    vals@,
                )[j] {
                    Some(fm) => field_fits(s.fields@[j], fm),
                    None => true,
                } by {
                    assert(state_ok(*s, vals_model(vals_before)));
                    if j == fi as int {
                        assert(s.fields@[j].role is SelfClosedChild);
                        assert(vals@[j] == Some(FieldValue::Flag(true)));
                        assert(vals_model(vals@)[j] == Some(field_model(FieldValue::Flag(true))));
                        assert(field_model(FieldValue::Flag(true)) == FieldM::Flag(true));
                    } else {
                        assert(vals@[j] == vals_before[j]);
                        assert(vals_model(vals@)[j] == vals_model(vals_before)[j]);
                        assert(match vals_model(vals_before)[j] {
                            Some(fm) => field_fits(s.fields@[j], fm),
                            None => true,
                        });
                    }
                }
                assert(state_ok(*s, vals_model(vals@)));
                assert(vals_model(vals@) =~= vals_model(vals_before).update(
                    fi as int,
                    Some(FieldM::Flag(true)),
                ));
            }
            return true;
        }
        fi += 1;
    }
    proof {
        lemma_sfc_idx(s.fields@, name@);
    }
    false
}

/// Deserialize one record, exactly as [`de_rec_m`] says: initialize
/// every field to its default, consume the attributes eagerly, run the
/// single forward pass over the body until the matching end tag, resolve
/// the untagged-struct accumulators, and assemble. A successful result
/// always fits the schema.
#[verifier::rlimit(100)]
pub fn de_record(
    s: &RecordSchema,
    tag: &[u8],
    attrs: &Vec<XmlAttr>,
    is_empty: bool,
    evs: &Vec<XmlEvent>,
    pos: usize,
    fuel: usize,
) -> (r: Result<(RecordValue, usize), XmlError>)
    requires
        wf_record(*s),
        pos <= evs@.len(),
    ensures
        r matches Ok((v, p)) ==> record_fits(*s, v@) && pos <= p <= evs@.len(),
        match de_rec_m(
            fuel as nat,
            *s,
            tag@,
            attrs_model(attrs@),
            is_empty,
            events_model(evs@),
            pos as int,
        ) {
            Ok((fms, p2)) => r matches Ok((v, p)) && v@.fields == fms && p as int == p2,
            Err(em) => r matches Err(e) && e@ == em,
        },
    decreases fuel,
{
    let ghost evm = events_model(evs@);
    if fuel == 0 {
        return Err(XmlError::DepthLimit);
    }
    let mut vals = init_state(s);
    match de_attrs(s, &mut vals, attrs) {
        Ok(_) => {},
        Err(e) => {
            return Err(e);
        },
    }
    proof {
        lemma_vals_model(vals@);
    }
    let ghost vm_attrs = vals_model(vals@);
    let ghost pend_init = Seq::new(s.fields@.len(), |i: int| Seq::<PendingM>::empty());
    let mut pending: Vec<Vec<PendingEntry>> = Vec::new();
    let mut k: usize = 0;
    while k < s.fields.len()
        invariant
            pending@.len() == k,
            0 <= k <= s.fields@.len(),
            forall|j: int| 0 <= j < k ==> (#[trigger] pending@[j])@.len() == 0,
            forall|j: int| 0 <= j < k ==> entries_model((#[trigger] pending@[j])@) =~= Seq::<
                PendingM,
            >::empty(),
        decreases s.fields@.len() - k,
    {
        pending.push(Vec::new());
        k += 1;
    }
    proof {
        lemma_pend_model(pending@);
        assert(pend_model(pending@) =~= pend_init);
    }
    let mut cur = pos;
    let ghost loop0 = de_loop_m(fuel as nat, *s, tag@, evm, pos as int, vm_attrs, pend_init);
    if !is_empty {
        let mut done = false;
        while !done
            invariant
                wf_record(*s),
                fuel >= 1,
                evm == events_model(evs@),
                state_ok(*s, vals_model(vals@)),
                vals@.len() == s.fields@.len(),
                pending@.len() == s.fields@.len(),
                pos <= cur <= evs@.len(),
                loop0 == de_loop_m(fuel as nat, *s, tag@, evm, pos as int, vm_attrs, pend_init),
                loop0 == (if done {
                    Ok::<_, XmlErrorM>((vals_model(vals@), pend_model(pending@), cur as int))
                } else {
                    de_loop_m(
                        fuel as nat,
                        *s,
                        tag@,
                        evm,
                        cur as int,
                        vals_model(vals@),
                        pend_model(pending@),
                    )
                }),
            decreases evs@.len() - cur + (if done { 0int } else { 1int }),
        {
            if cur >= evs.len() {
                proof {
                    assert(loop0 == Err::<
                        (Seq<Option<FieldM>>, Seq<Seq<PendingM>>, int),
                        _,
                    >(XmlErrorM::PrematureEnd));
                }
                return Err(XmlError::PrematureEnd);
            }
            proof {
                assert(evm[cur as int] == evs@[cur as int]@);
            }
            match &evs[cur] {
                XmlEvent::End { name } => {
                    if bytes_eq(name.as_slice(), tag) {
                        done = true;
                    }
                    cur += 1;
                },
                XmlEvent::Empty { name, attrs: attrs2 } => {
                    if set_flag(s, &mut vals, name) {
                        cur += 1;
                    } else {
                        match dispatch_child(
                            s,
                            &mut vals,
                            &mut pending,
                            name,
                            attrs2,
                            true,
                            evs,
                            cur + 1,
                            fuel - 1,
                        ) {
                            Ok(p) => {
                                cur = p;
                            },
                            Err(e) => {
                                proof {
                                    assert(loop0 == Err::<
                                        (Seq<Option<FieldM>>, Seq<Seq<PendingM>>, int),
                                        _,
                                    >(e@));
                                }
                                return Err(e);
                            },
                        }
                    }
                },
                XmlEvent::Start { name, attrs: attrs2 } => {
                    match dispatch_child(
                        s,
                        &mut vals,
                        &mut pending,
                        name,
                        attrs2,
                        false,
                        evs,
                        cur + 1,
                        fuel - 1,
                    ) {
                        Ok(p) => {
                            cur = p;
                        },
                        Err(e) => {
                            proof {
                                assert(loop0 == Err::<
                                    (Seq<Option<FieldM>>, Seq<Seq<PendingM>>, int),
                                    _,
                                >(e@));
                            }
                            return Err(e);
                        },
                    }
                },
                XmlEvent::Text { content } => {
                    if !is_all_ws(content.as_slice()) {
                        match assign_text(s, &mut vals, content) {
                            Ok(_) => {},
                            Err(e) => {
                                proof {
                                    assert(loop0 == Err::<
                                        (Seq<Option<FieldM>>, Seq<Seq<PendingM>>, int),
                                        _,
                                    >(e@));
                                }
                                return Err(e);
                            },
                        }
                    }
                    cur += 1;
                },
            }
        }
    }
    match resolve_pending(s, &mut vals, &pending, fuel - 1) {
        Ok(_) => {},
        Err(e) => {
            return Err(e);
        },
    }
    match assemble(s, vals) {
        Ok(v) => Ok((v, cur)),
        Err(e) => Err(e),
    }
}

} // verus!