//! Properties of the engine that hold for all inputs, stated and proved
//! once: when an element self-closes, when a defaulted attribute is
//! skipped, that untagged dispatch is tag-exact and independent of
//! declaration order, that a captured subtree replays verbatim, that the
//! unknown-field policy is enforced exactly on attributes and children
//! alike, how a flag is raised, and that the attribute fragment — and
//! with it every self-closing record — survives a full round trip.

use vstd::prelude::*;

use crate::de::attr_idx;
use crate::de::child_idx;
use crate::de::de_loop_m;
use crate::de::de_rec_m;
use crate::de::dispatch_m;
use crate::de::resolve_pending_m;
use crate::de::sfc_idx;
use crate::de::skip_m;
use crate::de::uenum_idx;
use crate::de::ustruct_idx;
use crate::de::attr_slot_m;
use crate::de::init_field_m;
use crate::de::init_state_m;
use crate::de::de_attr_m;
use crate::de::de_attrs_m;
use crate::de::lemma_attr_idx;
use crate::de::lemma_variant_idx;
use crate::de::variant_idx;
use crate::errors::XmlErrorM;
use crate::events::AttrM;
use crate::events::EventM;
use crate::scalars::lemma_scalar_codec_round_trip;
use crate::scalars::scalar_fits;
use crate::scalars::scalar_print;
use crate::scalars::table_model;
use crate::schema::FieldSchema;
use crate::schema::Payload;
use crate::schema::RecordSchema;
use crate::schema::UnionSchema;
use crate::ser::field_attr_m;
use crate::ser::field_attrs_m;
use crate::ser::ns_attrs_m;
use crate::ser::rec_no_content;
use crate::ser::ser_attrs_m;
use crate::ser::ser_record_m;
use crate::ser::ser_unparsed_m;
use crate::values::FieldM;
use crate::values::ItemM;
use crate::values::RecordM;
use crate::values::UnparsedM;
use crate::values::field_model;

verus! {

/// A record with a tag of its own serializes to a single self-closed
/// element — carrying exactly the planned attributes — precisely when no
/// field forces content.
pub proof fn lemma_self_closing(s: RecordSchema, rm: RecordM, tag: Seq<u8>)
    requires
        tag.len() > 0,
    ensures
        rec_no_content(s.fields@, rm.fields) <==> ser_record_m(s, rm, tag) =~= seq![
            EventM::Empty(tag, ser_attrs_m(s, rm.fields)),
        ],
{
    if !rec_no_content(s.fields@, rm.fields) {
        let evs = ser_record_m(s, rm, tag);
        assert(evs[0] is Start);
    }
}

/// A required attribute with a declared default is omitted exactly when
/// its value equals the default, and otherwise prints its value.
pub proof fn lemma_default_attr_skip(f: FieldSchema, fm: FieldM)
    requires
        f.role is Attr,
        f.arity is Required,
        f.dflt is Some,
        f.payload is Scalar,
        crate::schema::field_fits(f, fm),
    ensures
        field_model(f.dflt.unwrap()) == fm ==> field_attr_m(f, fm) == Seq::<AttrM>::empty(),
        match (f.payload, fm) {
            (Payload::Scalar(k), FieldM::One(ItemM::Sc(sm))) => field_model(f.dflt.unwrap()) != fm
                ==> field_attr_m(f, fm) == seq![(f.name@, scalar_print(k, sm))],
            _ => true,
        },
{
}

/// Untagged dispatch is tag-exact and independent of declaration order:
/// when the named variants carry pairwise distinct tags, the tag of any
/// named variant resolves to that variant and no other, wherever in the
/// declaration it stands.
pub proof fn lemma_untagged_dispatch_exact(u: UnionSchema, i: int)
    requires
        0 <= i < u.variants@.len(),
        !((u.variants@[i].kind) is Text),
        forall|j: int, k: int|
            0 <= j < k < u.variants@.len() && !((#[trigger] u.variants@[j].kind) is Text) && !((
            #[trigger] u.variants@[k].kind) is Text) ==> u.variants@[j].tag@ != u.variants@[k].tag@,
    ensures
        variant_idx(u.variants@, u.variants@[i].tag@) == i,
{
    let t = u.variants@[i].tag@;
    lemma_variant_idx(u.variants@, t);
    let f = variant_idx(u.variants@, t);
    assert(f != -1);
    if f < i {
        assert(!((u.variants@[f].kind) is Text) && u.variants@[f].tag@ == t);
        assert(u.variants@[f].tag@ != u.variants@[i].tag@);
    }
}

/// A captured subtree replays byte-faithfully at the event level: when a
/// capture took the events strictly between a start tag and its matching
/// end tag, serializing it reproduces exactly the original span, start
/// and end tags included; an empty capture replays as the self-closed
/// form of the same element.
pub proof fn lemma_passthrough_replay(
    evs: Seq<EventM>,
    start: int,
    close: int,
    attrs: Seq<AttrM>,
    tag: Seq<u8>,
)
    requires
        0 <= start < close < evs.len(),
        evs[start] == EventM::Start(tag, attrs),
        evs[close] == EventM::End(tag),
        close > start + 1,
    ensures
        ser_unparsed_m(
            UnparsedM { attrs, data: evs.subrange(start + 1, close) },
            tag,
        ) =~= evs.subrange(start, close + 1),
{
    let data = evs.subrange(start + 1, close);
    assert(data.len() > 0);
    let replay = seq![EventM::Start(tag, attrs)] + data + seq![EventM::End(tag)];
    assert forall|i: int| 0 <= i < replay.len() implies replay[i] == evs.subrange(
        start,
        close + 1,
    )[i] by {
        if i == 0 {
        } else if i <= data.len() {
            assert(replay[i] == data[i - 1]);
        } else {
            assert(replay[i] == EventM::End(tag));
        }
    }
}

/// The unknown-field policy on attributes, exactly: an attribute naming
/// no declared field is a fatal unknown-field error under `deny_unknown`
/// and leaves the state untouched under the accepting policy.
pub proof fn lemma_unknown_attr_policy(s: RecordSchema, vm: Seq<Option<FieldM>>, a: AttrM)
    requires
        attr_idx(s.fields@, a.0) == -1,
    ensures
        s.deny_unknown ==> de_attr_m(s, vm, a) == Err::<Seq<Option<FieldM>>, _>(
            XmlErrorM::UnknownField(a.0),
        ),
        !s.deny_unknown ==> de_attr_m(s, vm, a) == Ok::<_, XmlErrorM>(vm),
{
}

/// Under `deny_unknown`, an attribute phase that succeeds met only
/// declared attribute names: together with the automaton's contract, a
/// record deserialized under the denying policy carried no undeclared
/// attribute.
pub proof fn lemma_deny_attrs_all_known(
    s: RecordSchema,
    vm: Seq<Option<FieldM>>,
    attrs: Seq<AttrM>,
)
    requires
        s.deny_unknown,
        de_attrs_m(s, vm, attrs) is Ok,
    ensures
        forall|i: int| 0 <= i < attrs.len() ==> attr_idx(s.fields@, (#[trigger] attrs[i]).0) != -1,
    decreases attrs.len(),
{
    if attrs.len() > 0 {
        let pre = attrs.drop_last();
        assert(de_attrs_m(s, vm, pre) is Ok);
        lemma_deny_attrs_all_known(s, vm, pre);
        assert forall|i: int|
            0 <= i < attrs.len() implies attr_idx(s.fields@, (#[trigger] attrs[i]).0) != -1 by {
            if i < attrs.len() - 1 {
                assert(attrs[i] == pre[i]);
            } else {
                let vm2 = choose|vm2: Seq<Option<FieldM>>|
                    de_attrs_m(s, vm, pre) == Ok::<_, XmlErrorM>(vm2);
                assert(de_attrs_m(s, vm, pre) == Ok::<_, XmlErrorM>(vm2));
                assert(de_attr_m(s, vm2, attrs.last()) is Ok);
                if attr_idx(s.fields@, attrs.last().0) == -1 {
                    assert(false);
                }
            }
        }
    }
}

/// Round trip of the attribute fragment. For a record whose fields are
/// attributes with pairwise distinct names — optional attributes without
/// defaults, choice tables without repeated entries — or unset
/// self-closing flags, consuming the attributes the planner emits
/// restores every field to exactly the value it was serialized from: an
/// omitted optional stays absent, a default-valued field comes back as
/// its default, an absent flag stays false, and every printed value
/// parses back to itself.
pub proof fn lemma_attr_round_trip(s: RecordSchema, rm: RecordM)
    requires
        crate::schema::wf_record(s),
        crate::schema::record_fits(s, rm),
        s.with_ns is None,
        s.custom_ns@.len() == 0,
        forall|i: int|
            0 <= i < s.fields@.len() ==> (#[trigger] s.fields@[i].role) is Attr || (
            s.fields@[i].role is SelfClosedChild && rm.fields[i] == FieldM::Flag(false)),
        forall|i: int|
            0 <= i < s.fields@.len() && (#[trigger] s.fields@[i].arity) is Optional
                ==> s.fields@[i].dflt is None,
        forall|i: int, j: int|
            0 <= i < j < s.fields@.len() ==> (#[trigger] s.fields@[i].name@) != (
            #[trigger] s.fields@[j].name@),
        forall|i: int|
            0 <= i < s.fields@.len() ==> match #[trigger] s.fields@[i].payload {
                Payload::Scalar(crate::scalars::ScalarKind::Choice(t)) => forall|a: int, b: int|
                    0 <= a < b < t@.len() ==> table_model(t@)[a] != table_model(t@)[b],
                _ => true,
            },
    ensures
        ({
            let vm = de_attrs_m(s, init_state_m(s.fields@), crate::ser::ser_attrs_m(s, rm.fields));
            &&& vm is Ok
            &&& vm matches Ok(st) && st.len() == rm.fields.len() && forall|i: int|
                0 <= i < rm.fields.len() ==> st[i] == Some(#[trigger] rm.fields[i])
        }),
{
    assert(ns_attrs_m(s) + field_attrs_m(s.fields@, rm.fields) =~= field_attrs_m(
        s.fields@,
        rm.fields,
    ));
    lemma_attr_round_trip_prefix(s, rm, rm.fields.len() as int);
    assert(s.fields@.subrange(0, s.fields@.len() as int) =~= s.fields@);
    assert(rm.fields.subrange(0, rm.fields.len() as int) =~= rm.fields);
}

/// The inductive core of [`lemma_attr_round_trip`]: after consuming the
/// attributes of the first `k` fields, the first `k` slots hold their
/// original values and the rest still hold their initial ones.
proof fn lemma_attr_round_trip_prefix(s: RecordSchema, rm: RecordM, k: int)
    requires
        crate::schema::wf_record(s),
        crate::schema::record_fits(s, rm),
        0 <= k <= s.fields@.len(),
        forall|i: int|
            0 <= i < s.fields@.len() ==> (#[trigger] s.fields@[i].role) is Attr || s.fields@[i].role
                is SelfClosedChild,
        forall|i: int|
            0 <= i < s.fields@.len() && (#[trigger] s.fields@[i].arity) is Optional
                ==> s.fields@[i].dflt is None,
        forall|i: int, j: int|
            0 <= i < j < s.fields@.len() ==> (#[trigger] s.fields@[i].name@) != (
            #[trigger] s.fields@[j].name@),
        forall|i: int|
            0 <= i < s.fields@.len() ==> match #[trigger] s.fields@[i].payload {
                Payload::Scalar(crate::scalars::ScalarKind::Choice(t)) => forall|a: int, b: int|
                    0 <= a < b < t@.len() ==> table_model(t@)[a] != table_model(t@)[b],
                _ => true,
            },
    ensures
        ({
            let folded = de_attrs_m(
                s,
                init_state_m(s.fields@),
                field_attrs_m(s.fields@.subrange(0, k), rm.fields.subrange(0, k)),
            );
            &&& folded is Ok
            &&& folded matches Ok(st) && st.len() == s.fields@.len() && (forall|i: int|
                0 <= i < k ==> st[i] == (if (#[trigger] s.fields@[i].role) is Attr {
                    Some(rm.fields[i])
                } else {
                    Some(FieldM::Flag(false))
                })) && (forall|i: int|
                k <= i < s.fields@.len() ==> st[i] == init_field_m(#[trigger] s.fields@[i]))
        }),
    decreases k,
{
    let init = init_state_m(s.fields@);
    if k == 0 {
        assert(field_attrs_m(s.fields@.subrange(0, 0), rm.fields.subrange(0, 0)) =~= Seq::<
            AttrM,
        >::empty());
        assert(de_attrs_m(s, init, Seq::empty()) == Ok::<_, XmlErrorM>(init));
    } else {
        lemma_attr_round_trip_prefix(s, rm, k - 1);
        let pre_attrs = field_attrs_m(s.fields@.subrange(0, k - 1), rm.fields.subrange(0, k - 1));
        let st_pre = choose|st: Seq<Option<FieldM>>|
            de_attrs_m(s, init, pre_attrs) == Ok::<_, XmlErrorM>(st);
        assert(de_attrs_m(s, init, pre_attrs) == Ok::<_, XmlErrorM>(st_pre));
        let f = s.fields@[k - 1];
        let fm = rm.fields[k - 1];
        assert(crate::schema::field_fits(f, fm)) by {
            assert(crate::schema::fields_fit(s, rm.fields));
        }
        assert(crate::schema::wf_field(f));
        let part = field_attr_m(f, fm);
        let sub_fs = s.fields@.subrange(0, k);
        let sub_fm = rm.fields.subrange(0, k);
        assert(sub_fs.drop_last() =~= s.fields@.subrange(0, k - 1));
        assert(sub_fm.drop_last() =~= rm.fields.subrange(0, k - 1));
        assert(field_attrs_m(sub_fs, sub_fm) == pre_attrs + part);
        if part.len() == 0 {
            assert(pre_attrs + part =~= pre_attrs);
            // the field was skipped: its slot still holds its initial
            // value, which is exactly its original value
            assert(st_pre[k - 1] == init_field_m(f));
            if f.role is SelfClosedChild {
                assert(init_field_m(f) == Some(FieldM::Flag(false)));
            } else {
                match f.arity {
                    crate::schema::Arity::Optional => {
                        assert(fm matches FieldM::Opt(o) && o is None);
                        assert(init_field_m(f) == Some(FieldM::Opt(None::<Box<ItemM>>)));
                    },
                    crate::schema::Arity::Required => {
                        assert(f.dflt matches Some(d) && field_model(d) == fm);
                        assert(init_field_m(f) == Some(fm));
                    },
                    crate::schema::Arity::Repeated => {
                        assert(false);
                    },
                }
            }
        } else {
            // the field printed one attribute; it routes back to the same
            // field and parses back to the same value
            assert(part.len() == 1);
            let a = part[0];
            assert(pre_attrs + part =~= pre_attrs.push(a));
            assert((pre_attrs.push(a)).drop_last() =~= pre_attrs);
            assert((pre_attrs.push(a)).last() == a);
            assert(de_attrs_m(s, init, pre_attrs.push(a)) == de_attr_m(s, st_pre, a));
            assert(a.0 == f.name@);
            lemma_attr_idx(s.fields@, a.0);
            let idx = attr_idx(s.fields@, a.0);
            assert(idx != -1) by {
                if idx == -1 {
                    assert(!(s.fields@[k - 1].role is Attr && s.fields@[k - 1].name@ == a.0));
                }
            }
            assert(idx == k - 1) by {
                if idx < k - 1 {
                    assert(s.fields@[idx].name@ != s.fields@[k - 1].name@);
                } else if idx > k - 1 {
                    assert(!(s.fields@[k - 1].role is Attr && s.fields@[k - 1].name@ == a.0));
                }
            }
            match f.payload {
                Payload::Scalar(kind) => {
                    let sm = choose|sm: crate::scalars::ScalarM|
                        scalar_fits(kind, sm) && a.1 == scalar_print(kind, sm) && attr_slot_m(
                            f.arity,
                            sm,
                        ) == fm;
                    assert(scalar_fits(kind, sm) && a.1 == scalar_print(kind, sm) && attr_slot_m(
                        f.arity,
                        sm,
                    ) == fm) by {
                        match fm {
                            FieldM::One(ItemM::Sc(w)) => {
                                assert(scalar_fits(kind, w) && a.1 == scalar_print(kind, w)
                                    && attr_slot_m(f.arity, w) == fm);
                            },
                            FieldM::Opt(o) => {
                                match o {
                                    Some(b) => {
                                        match *b {
                                            ItemM::Sc(w) => {
                                                assert(f.arity is Optional);
                                                assert(scalar_fits(kind, w) && a.1 == scalar_print(
                                                    kind,
                                                    w,
                                                ) && attr_slot_m(f.arity, w) == fm);
                                            },
                                            _ => {
                                                assert(false);
                                            },
                                        }
                                    },
                                    None => {
                                        assert(false);
                                    },
                                }
                            },
                            _ => {
                                assert(false);
                            },
                        }
                    }
                    lemma_scalar_codec_round_trip(kind, sm);
                    assert(crate::scalars::scalar_parse(kind, a.1) == Some(sm));
                    assert(de_attr_m(s, st_pre, a) == Ok::<_, XmlErrorM>(
                        st_pre.update(k - 1, Some(attr_slot_m(f.arity, sm))),
                    ));
                },
                _ => {
                    assert(false);
                },
            }
        }
    }
}

/// Round trip for self-closing records, end to end at the model level:
/// under the premises of [`lemma_attr_round_trip`], with every flag unset
/// and every other value equal to its default or absent, the planner
/// emits exactly one self-closed element, and deserializing that element
/// gives back exactly the record it came from.
pub proof fn lemma_self_closing_round_trip(s: RecordSchema, rm: RecordM, tag: Seq<u8>)
    requires
        tag.len() > 0,
        crate::schema::wf_record(s),
        crate::schema::record_fits(s, rm),
        s.with_ns is None,
        s.custom_ns@.len() == 0,
        crate::ser::rec_no_content(s.fields@, rm.fields),
        forall|i: int|
            0 <= i < s.fields@.len() ==> (#[trigger] s.fields@[i].role) is Attr || (
            s.fields@[i].role is SelfClosedChild && rm.fields[i] == FieldM::Flag(false)),
        forall|i: int|
            0 <= i < s.fields@.len() && (#[trigger] s.fields@[i].arity) is Optional
                ==> s.fields@[i].dflt is None,
        forall|i: int, j: int|
            0 <= i < j < s.fields@.len() ==> (#[trigger] s.fields@[i].name@) != (
            #[trigger] s.fields@[j].name@),
        forall|i: int|
            0 <= i < s.fields@.len() ==> match #[trigger] s.fields@[i].payload {
                Payload::Scalar(crate::scalars::ScalarKind::Choice(t)) => forall|a: int, b: int|
                    0 <= a < b < t@.len() ==> table_model(t@)[a] != table_model(t@)[b],
                _ => true,
            },
    ensures
        ser_record_m(s, rm, tag) == seq![
            EventM::Empty(tag, crate::ser::ser_attrs_m(s, rm.fields)),
        ],
        crate::de::de_empty_m(s, crate::ser::ser_attrs_m(s, rm.fields)) == Ok::<_, XmlErrorM>(
            rm.fields,
        ),
        forall|fuel: nat, evs: Seq<EventM>, pos: int|
            fuel > 0 ==> #[trigger] de_rec_m(
                fuel,
                s,
                tag,
                crate::ser::ser_attrs_m(s, rm.fields),
                true,
                evs,
                pos,
            ) == Ok::<_, XmlErrorM>((rm.fields, pos)),
{
    lemma_self_closing(s, rm, tag);
    assert(ser_record_m(s, rm, tag) =~= seq![
        EventM::Empty(tag, crate::ser::ser_attrs_m(s, rm.fields)),
    ]);
    lemma_attr_round_trip(s, rm);
    let folded = de_attrs_m(
        s,
        init_state_m(s.fields@),
        crate::ser::ser_attrs_m(s, rm.fields),
    );
    let st = choose|st: Seq<Option<FieldM>>| folded == Ok::<_, XmlErrorM>(st);
    assert(folded == Ok::<_, XmlErrorM>(st));
    assert forall|i: int| 0 <= i < st.len() implies (#[trigger] st[i]) is Some by {
        assert(st[i] == Some(rm.fields[i]));
    }
    assert(Seq::new(st.len(), |i: int| st[i]->0) =~= rm.fields);
    assert forall|fuel: nat, evs: Seq<EventM>, pos: int| fuel > 0 implies #[trigger] de_rec_m(
        fuel,
        s,
        tag,
        crate::ser::ser_attrs_m(s, rm.fields),
        true,
        evs,
        pos,
    ) == Ok::<_, XmlErrorM>((rm.fields, pos)) by {
        lemma_de_rec_empty(fuel, s, tag, crate::ser::ser_attrs_m(s, rm.fields), evs, pos);
    }
}

/// Consuming attributes touches attribute fields only: every other slot
/// leaves the fold exactly as it entered it.
pub proof fn lemma_attrs_touch_attrs_only(
    s: RecordSchema,
    vm: Seq<Option<FieldM>>,
    attrs: Seq<AttrM>,
)
    requires
        de_attrs_m(s, vm, attrs) is Ok,
        vm.len() == s.fields@.len(),
    ensures
        de_attrs_m(s, vm, attrs) matches Ok(vm2) && vm2.len() == vm.len() && forall|i: int|
            0 <= i < vm.len() && !((#[trigger] s.fields@[i].role) is Attr) ==> vm2[i] == vm[i],
    decreases attrs.len(),
{
    if attrs.len() > 0 {
        let pre = attrs.drop_last();
        assert(de_attrs_m(s, vm, pre) is Ok);
        lemma_attrs_touch_attrs_only(s, vm, pre);
        let vm_pre = choose|v: Seq<Option<FieldM>>| de_attrs_m(s, vm, pre) == Ok::<_, XmlErrorM>(v);
        assert(de_attrs_m(s, vm, pre) == Ok::<_, XmlErrorM>(vm_pre));
        let a = attrs.last();
        let idx = attr_idx(s.fields@, a.0);
        lemma_attr_idx(s.fields@, a.0);
        assert forall|i: int|
            0 <= i < vm.len() && !((#[trigger] s.fields@[i].role) is Attr) implies de_attrs_m(
            s,
            vm,
            attrs,
        )->Ok_0[i] == vm[i] by {
            assert(vm_pre[i] == vm[i]);
            if idx != -1 {
                assert(s.fields@[idx].role is Attr);
            }
        }
    }
}

/// Self-closing-flag fields of a self-closed element all come back
/// `false`: the element has no body, so nothing can raise a flag.
pub proof fn lemma_flags_false_on_self_closed(s: RecordSchema, attrs: Seq<AttrM>)
    requires
        crate::schema::wf_record(s),
        crate::de::de_empty_m(s, attrs) is Ok,
    ensures
        crate::de::de_empty_m(s, attrs) matches Ok(fms) && fms.len() == s.fields@.len() && forall|
            i: int,
        |
            0 <= i < s.fields@.len() && (#[trigger] s.fields@[i].role) is SelfClosedChild
                ==> fms[i] == FieldM::Flag(false),
{
    let init = init_state_m(s.fields@);
    assert(de_attrs_m(s, init, attrs) is Ok);
    lemma_attrs_touch_attrs_only(s, init, attrs);
    let vm = choose|v: Seq<Option<FieldM>>| de_attrs_m(s, init, attrs) == Ok::<_, XmlErrorM>(v);
    assert(de_attrs_m(s, init, attrs) == Ok::<_, XmlErrorM>(vm));
    assert forall|i: int|
        0 <= i < s.fields@.len() && (#[trigger] s.fields@[i].role) is SelfClosedChild implies
        crate::de::de_empty_m(s, attrs)->Ok_0[i] == FieldM::Flag(false) by {
        assert(crate::schema::wf_field(s.fields@[i]));
        assert(s.fields@[i].dflt is None);
        assert(init[i] == init_field_m(s.fields@[i]));
        assert(init_field_m(s.fields@[i]) == Some(FieldM::Flag(false)));
        assert(vm[i] == init[i]);
    }
}

/// The unknown-field policy on children, exactly: a child tag that no
/// named child, untagged union or absorbing struct declares is a fatal
/// unknown-field error under `deny_unknown`; under the accepting policy
/// its whole subtree is consumed — the stream position moves past the
/// matching end tag — and the state is untouched.
pub proof fn lemma_unknown_child_policy(
    fuel: nat,
    s: RecordSchema,
    vm: Seq<Option<FieldM>>,
    pend: Seq<Seq<crate::de::PendingM>>,
    name: Seq<u8>,
    attrs2: Seq<AttrM>,
    is_empty: bool,
    evs: Seq<EventM>,
    after: int,
)
    requires
        fuel > 0,
        child_idx(s.fields@, name) == -1,
        uenum_idx(s.fields@, name) == -1,
        ustruct_idx(s.fields@, name) == -1,
    ensures
        s.deny_unknown ==> dispatch_m(fuel, s, vm, pend, name, attrs2, is_empty, evs, after)
            == Err::<(Seq<Option<FieldM>>, Seq<Seq<crate::de::PendingM>>, int), _>(
            XmlErrorM::UnknownField(name),
        ),
        !s.deny_unknown && is_empty ==> dispatch_m(fuel, s, vm, pend, name, attrs2, is_empty, evs, after)
            == Ok::<_, XmlErrorM>((vm, pend, after)),
        !s.deny_unknown && !is_empty ==> dispatch_m(
            fuel,
            s,
            vm,
            pend,
            name,
            attrs2,
            is_empty,
            evs,
            after,
        ) == (match skip_m(evs, after, 1) {
            Some(p) => Ok::<_, XmlErrorM>((vm, pend, p)),
            None => Err(XmlErrorM::PrematureEnd),
        }),
{
}

/// Raising a self-closing flag, exactly: an empty element naming a flag
/// field sets that flag — the first so named — and nothing else, and the
/// forward pass continues behind it.
pub proof fn lemma_flag_raised(
    fuel: nat,
    s: RecordSchema,
    tag: Seq<u8>,
    evs: Seq<EventM>,
    pos: int,
    vm: Seq<Option<FieldM>>,
    pend: Seq<Seq<crate::de::PendingM>>,
)
    requires
        fuel > 0,
        0 <= pos < evs.len(),
        evs[pos] matches EventM::Empty(name, _) && sfc_idx(s.fields@, name) != -1,
    ensures
        evs[pos] matches EventM::Empty(name, _) ==> de_loop_m(fuel, s, tag, evs, pos, vm, pend)
            == de_loop_m(
            fuel,
            s,
            tag,
            evs,
            pos + 1,
            vm.update(sfc_idx(s.fields@, name), Some(FieldM::Flag(true))),
            pend,
        ),
{
}

/// Resolving the untagged-struct accumulators does nothing when every
/// capture list is empty.
pub proof fn lemma_resolve_empty(
    fuel: nat,
    s: RecordSchema,
    vm: Seq<Option<FieldM>>,
    pend: Seq<Seq<crate::de::PendingM>>,
    i: int,
)
    requires
        forall|j: int| 0 <= j < pend.len() ==> (#[trigger] pend[j]).len() == 0,
    ensures
        resolve_pending_m(fuel, s, vm, pend, i) == Ok::<_, XmlErrorM>(vm),
    decreases s.fields@.len() - i,
{
    if 0 <= i < s.fields@.len() {
        lemma_resolve_empty(fuel, s, vm, pend, i + 1);
    }
}

/// A self-closed element's outcome under the full automaton is exactly
/// [`crate::de::de_empty_m`]: the attribute fold decides everything and
/// the stream position does not move.
pub proof fn lemma_de_rec_empty(
    fuel: nat,
    s: RecordSchema,
    tag: Seq<u8>,
    attrs: Seq<AttrM>,
    evs: Seq<EventM>,
    pos: int,
)
    requires
        fuel > 0,
    ensures
        de_rec_m(fuel, s, tag, attrs, true, evs, pos) == (match crate::de::de_empty_m(s, attrs) {
            Ok(fms) => Ok::<_, XmlErrorM>((fms, pos)),
            Err(e) => Err(e),
        }),
{
    match de_attrs_m(s, init_state_m(s.fields@), attrs) {
        Err(_) => {},
        Ok(vm0) => {
            let pend0 = Seq::new(s.fields@.len(), |i: int| Seq::<crate::de::PendingM>::empty());
            lemma_resolve_empty((fuel - 1) as nat, s, vm0, pend0, 0);
        },
    }
}

/// The flag events from field `k` on, front to back.
pub open spec fn flags_from(fs: Seq<FieldSchema>, fms: Seq<FieldM>, k: int) -> Seq<EventM>
    decreases fs.len() - k,
{
    if k < 0 || k >= fs.len() || fs.len() != fms.len() {
        Seq::empty()
    } else {
        (if fs[k].role is SelfClosedChild && fms[k] matches FieldM::Flag(true) {
            seq![EventM::Empty(fs[k].name@, Seq::empty())]
        } else {
            Seq::<EventM>::empty()
        }) + flags_from(fs, fms, k + 1)
    }
}

/// The back-to-front flag fold equals the front-to-back one.
proof fn lemma_flags_from_unsnoc(fs: Seq<FieldSchema>, fms: Seq<FieldM>, k: int)
    requires
        fs.len() == fms.len(),
        fs.len() > 0,
        0 <= k <= fs.len() - 1,
    ensures
        flags_from(fs, fms, k) == flags_from(fs.drop_last(), fms.drop_last(), k) + (if fs.last().role
            is SelfClosedChild && fms.last() matches FieldM::Flag(true) {
            seq![EventM::Empty(fs.last().name@, Seq::empty())]
        } else {
            Seq::<EventM>::empty()
        }),
    decreases fs.len() - k,
{
    let fsp = fs.drop_last();
    let fmsp = fms.drop_last();
    let last_part: Seq<EventM> = if fs.last().role is SelfClosedChild && fms.last() matches
        FieldM::Flag(true) {
        seq![EventM::Empty(fs.last().name@, Seq::empty())]
    } else {
        Seq::empty()
    };
    if k == fs.len() - 1 {
        assert(flags_from(fsp, fmsp, k) =~= Seq::<EventM>::empty());
        assert(flags_from(fs, fms, k) =~= last_part) by {
            assert(flags_from(fs, fms, k + 1) =~= Seq::<EventM>::empty());
        }
        assert(flags_from(fs, fms, k) =~= flags_from(fsp, fmsp, k) + last_part);
    } else {
        lemma_flags_from_unsnoc(fs, fms, k + 1);
        assert(fsp[k] == fs[k]);
        assert(fmsp[k] == fms[k]);
        assert(flags_from(fs, fms, k) =~= flags_from(fsp, fmsp, k) + last_part);
    }
}

/// The planner's flag events are the front-to-back fold.
proof fn lemma_flags_decomp(fs: Seq<FieldSchema>, fms: Seq<FieldM>)
    requires
        fs.len() == fms.len(),
    ensures
        crate::ser::flags_events_m(fs, fms) == flags_from(fs, fms, 0),
    decreases fs.len(),
{
    if fs.len() > 0 {
        lemma_flags_decomp(fs.drop_last(), fms.drop_last());
        lemma_flags_from_unsnoc(fs, fms, 0);
        assert(crate::ser::flags_events_m(fs, fms) =~= flags_from(fs, fms, 0));
    } else {
        assert(crate::ser::flags_events_m(fs, fms) =~= flags_from(fs, fms, 0));
    }
}

/// A record of attributes and flags has no child, untagged or text
/// events in its body.
proof fn lemma_groups_empty(fs: Seq<FieldSchema>, fms: Seq<FieldM>)
    requires
        forall|i: int|
            0 <= i < fs.len() ==> (#[trigger] fs[i].role) is Attr || fs[i].role
                is SelfClosedChild,
    ensures
        crate::ser::children_events_m(fs, fms) == Seq::<EventM>::empty(),
        crate::ser::untagged_events_m(fs, fms) == Seq::<EventM>::empty(),
        crate::ser::text_events_m(fs, fms) == Seq::<EventM>::empty(),
    decreases fms.len(),
{
    if fms.len() > 0 && fs.len() == fms.len() {
        lemma_groups_empty(fs.drop_last(), fms.drop_last());
        assert(crate::ser::children_events_m(fs, fms) =~= Seq::<EventM>::empty());
        assert(crate::ser::untagged_events_m(fs, fms) =~= Seq::<EventM>::empty());
        assert(crate::ser::text_events_m(fs, fms) =~= Seq::<EventM>::empty());
    } else {
        assert(crate::ser::children_events_m(fs, fms) =~= Seq::<EventM>::empty());
        assert(crate::ser::untagged_events_m(fs, fms) =~= Seq::<EventM>::empty());
        assert(crate::ser::text_events_m(fs, fms) =~= Seq::<EventM>::empty());
    }
}

/// The forward pass over a flag-only body: starting from a state whose
/// attributes are already correct and whose flags are still unset, the
/// emitted flag events raise exactly the set flags, the end tag stops
/// the pass, and every field ends at its original value.
proof fn lemma_de_flags_loop(
    fuel: nat,
    s: RecordSchema,
    rm: RecordM,
    tag: Seq<u8>,
    evs: Seq<EventM>,
    base: int,
    k: int,
    vm: Seq<Option<FieldM>>,
    pend: Seq<Seq<crate::de::PendingM>>,
)
    requires
        fuel > 0,
        crate::schema::wf_record(s),
        crate::schema::record_fits(s, rm),
        forall|i: int|
            0 <= i < s.fields@.len() ==> (#[trigger] s.fields@[i].role) is Attr || s.fields@[i].role
                is SelfClosedChild,
        forall|i: int, j: int|
            0 <= i < j < s.fields@.len() && (#[trigger] s.fields@[i].role) is SelfClosedChild && (
            #[trigger] s.fields@[j].role) is SelfClosedChild ==> s.fields@[i].name@
                != s.fields@[j].name@,
        0 <= k <= s.fields@.len(),
        vm.len() == s.fields@.len(),
        forall|i: int|
            0 <= i < s.fields@.len() ==> #[trigger] vm[i] == (if i < k || s.fields@[i].role
                is Attr {
                Some(rm.fields[i])
            } else {
                Some(FieldM::Flag(false))
            }),
        0 <= base,
        base + flags_from(s.fields@, rm.fields, k).len() < evs.len(),
        evs.subrange(base, base + flags_from(s.fields@, rm.fields, k).len()) == flags_from(
            s.fields@,
            rm.fields,
            k,
        ),
        evs[base + flags_from(s.fields@, rm.fields, k).len()] == EventM::End(tag),
    ensures
        de_loop_m(fuel, s, tag, evs, base, vm, pend) == Ok::<_, XmlErrorM>(
            (
                Seq::new(s.fields@.len(), |i: int| Some(rm.fields[i])),
                pend,
                base + flags_from(s.fields@, rm.fields, k).len() + 1,
            ),
        ),
    decreases s.fields@.len() - k,
{
    let fs = s.fields@;
    let fms = rm.fields;
    let target = Seq::new(fs.len(), |i: int| Some(fms[i]));
    let seg = flags_from(fs, fms, k);
    if k == fs.len() {
        assert(seg =~= Seq::<EventM>::empty());
        assert(evs[base] == EventM::End(tag));
        assert(vm =~= target);
        assert(de_loop_m(fuel, s, tag, evs, base, vm, pend) == Ok::<_, XmlErrorM>(
            (vm, pend, base + 1),
        ));
    } else {
        assert(crate::schema::fields_fit(s, fms));
        assert(crate::schema::field_fits(fs[k], fms[k]));
        let set_flag = fs[k].role is SelfClosedChild && fms[k] matches FieldM::Flag(true);
        if !set_flag {
            assert(seg =~= flags_from(fs, fms, k + 1));
            let vm2 = vm;
            assert forall|i: int|
                0 <= i < fs.len() implies #[trigger] vm2[i] == (if i < k + 1 || fs[i].role
                is Attr {
                Some(fms[i])
            } else {
                Some(FieldM::Flag(false))
            }) by {
                if i == k && !(fs[i].role is Attr) {
                    assert(fs[i].role is SelfClosedChild);
                    assert(fms[i] is Flag);
                    assert(fms[i] == FieldM::Flag(false));
                }
            }
            lemma_de_flags_loop(fuel, s, rm, tag, evs, base, k + 1, vm2, pend);
        } else {
            let name = fs[k].name@;
            assert(seg[0] == EventM::Empty(name, Seq::empty()));
            assert(evs[base] == seg[0]) by {
                assert(evs.subrange(base, base + seg.len())[0] == evs[base]);
            }
            crate::de::lemma_sfc_idx(fs, name);
            assert(crate::de::sfc_idx(fs, name) == k) by {
                let si = crate::de::sfc_idx(fs, name);
                assert(si != -1) by {
                    if si == -1 {
                        assert(!(fs[k].role is SelfClosedChild && fs[k].name@ == name));
                    }
                }
                if si < k {
                    assert(fs[si].name@ != fs[k].name@);
                }
                if si > k {
                    assert(!(fs[k].role is SelfClosedChild && fs[k].name@ == name));
                }
            }
            let vm2 = vm.update(k, Some(FieldM::Flag(true)));
            assert(de_loop_m(fuel, s, tag, evs, base, vm, pend) == de_loop_m(
                fuel,
                s,
                tag,
                evs,
                base + 1,
                vm2,
                pend,
            ));
            let seg2 = flags_from(fs, fms, k + 1);
            assert(seg =~= seq![EventM::Empty(name, Seq::empty())] + seg2);
            assert(evs.subrange(base + 1, base + 1 + seg2.len()) =~= seg2) by {
                assert forall|t: int| 0 <= t < seg2.len() implies evs.subrange(
                    base + 1,
                    base + 1 + seg2.len(),
                )[t] == seg2[t] by {
                    assert(evs.subrange(base, base + seg.len())[t + 1] == evs[base + 1 + t]);
                    assert(seg[t + 1] == seg2[t]);
                }
            }
            assert forall|i: int|
                0 <= i < fs.len() implies #[trigger] vm2[i] == (if i < k + 1 || fs[i].role
                is Attr {
                Some(fms[i])
            } else {
                Some(FieldM::Flag(false))
            }) by {
                if i == k {
                    assert(fms[k] == FieldM::Flag(true));
                }
            }
            lemma_de_flags_loop(fuel, s, rm, tag, evs, base + 1, k + 1, vm2, pend);
        }
    }
}

/// Round trip for records of attributes and self-closing flags with any
/// flag values, end to end at the model level: under the attribute
/// premises of [`lemma_attr_round_trip`] and pairwise distinct flag
/// names, a record with at least one set flag serializes as a start tag,
/// its set flags as self-closed children, and the end tag — and running
/// the automaton over exactly that output restores every field.
pub proof fn lemma_flag_record_round_trip(fuel: nat, s: RecordSchema, rm: RecordM, tag: Seq<u8>)
    requires
        fuel > 0,
        tag.len() > 0,
        crate::schema::wf_record(s),
        crate::schema::record_fits(s, rm),
        s.with_ns is None,
        s.custom_ns@.len() == 0,
        !crate::ser::rec_no_content(s.fields@, rm.fields),
        forall|i: int|
            0 <= i < s.fields@.len() ==> (#[trigger] s.fields@[i].role) is Attr || s.fields@[i].role
                is SelfClosedChild,
        forall|i: int, j: int|
            0 <= i < j < s.fields@.len() && (#[trigger] s.fields@[i].role) is SelfClosedChild && (
            #[trigger] s.fields@[j].role) is SelfClosedChild ==> s.fields@[i].name@
                != s.fields@[j].name@,
        forall|i: int|
            0 <= i < s.fields@.len() && (#[trigger] s.fields@[i].arity) is Optional
                ==> s.fields@[i].dflt is None,
        forall|i: int, j: int|
            0 <= i < j < s.fields@.len() ==> (#[trigger] s.fields@[i].name@) != (
            #[trigger] s.fields@[j].name@),
        forall|i: int|
            0 <= i < s.fields@.len() ==> match #[trigger] s.fields@[i].payload {
                Payload::Scalar(crate::scalars::ScalarKind::Choice(t)) => forall|a: int, b: int|
                    0 <= a < b < t@.len() ==> table_model(t@)[a] != table_model(t@)[b],
                _ => true,
            },
    ensures
        ({
            let evs = ser_record_m(s, rm, tag);
            de_rec_m(fuel, s, tag, crate::ser::ser_attrs_m(s, rm.fields), false, evs, 1) == Ok::<
                _,
                XmlErrorM,
            >((rm.fields, evs.len() as int))
        }),
{
    let fs = s.fields@;
    let fms = rm.fields;
    let attrs = crate::ser::ser_attrs_m(s, fms);
    let body = crate::ser::ser_body_m(s, fms);
    let evs = ser_record_m(s, rm, tag);
    lemma_groups_empty(fs, fms);
    lemma_flags_decomp(fs, fms);
    assert(body =~= flags_from(fs, fms, 0));
    assert(evs =~= seq![EventM::Start(tag, attrs)] + body + seq![EventM::End(tag)]);
    // the attribute phase restores the attributes and leaves the flags unset
    assert(ns_attrs_m(s) + field_attrs_m(fs, fms) =~= field_attrs_m(fs, fms));
    lemma_attr_round_trip_prefix(s, rm, fs.len() as int);
    assert(fs.subrange(0, fs.len() as int) =~= fs);
    assert(fms.subrange(0, fms.len() as int) =~= fms);
    let st = choose|st: Seq<Option<FieldM>>|
        de_attrs_m(s, init_state_m(fs), attrs) == Ok::<_, XmlErrorM>(st);
    assert(de_attrs_m(s, init_state_m(fs), attrs) == Ok::<_, XmlErrorM>(st));
    // the body pass raises exactly the set flags and stops at the end tag
    assert(evs.subrange(1, 1 + body.len() as int) =~= body);
    assert(evs[1 + body.len() as int] == EventM::End(tag));
    let pend0 = Seq::new(fs.len(), |i: int| Seq::<crate::de::PendingM>::empty());
    lemma_de_flags_loop(fuel, s, rm, tag, evs, 1, 0, st, pend0);
    let target = Seq::new(fs.len(), |i: int| Some(fms[i]));
    assert(de_loop_m(fuel, s, tag, evs, 1, st, pend0) == Ok::<_, XmlErrorM>(
        (target, pend0, 1 + body.len() as int + 1),
    ));
    lemma_resolve_empty((fuel - 1) as nat, s, target, pend0, 0);
    assert forall|i: int| 0 <= i < target.len() implies (#[trigger] target[i]) is Some by {}
    assert(Seq::new(target.len(), |i: int| target[i]->0) =~= fms);
    assert(crate::de::assemble_m(s, target) == Ok::<_, XmlErrorM>(fms));
    assert(evs.len() == 1 + body.len() + 1);
}

} // verus!
