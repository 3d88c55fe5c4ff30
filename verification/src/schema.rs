//! The schema model: a per-record description of how each field maps to
//! XML, built once and shared read-only by both directions of the engine.
//!
//! A record schema lists its fields in order; each field carries a role
//! ([`EleType`]), a tag or attribute name, an arity, an optional default
//! value and a payload description. Tagged unions are described by a
//! [`UnionSchema`]: an ordered list of variants, each either a named child
//! (with or without a record payload) or the single text-carrying variant.

use vstd::prelude::*;

use crate::scalars::Scalar;
use crate::scalars::ScalarKind;
use crate::scalars::scalar_fits;
use crate::values::FieldM;
use crate::values::FieldValue;
use crate::values::ItemM;
use crate::values::RecordM;
use crate::values::UnionM;
use crate::values::field_model;

verus! {

broadcast use vstd::seq::axiom_seq_index_decreases, vstd::seq::axiom_seq_subrange_decreases, vstd::std_specs::vec::axiom_vec_decreases_to_view;

/// Where a field stands in the XML element.
///
/// `Untag` is the older spelling of `UntaggedEnum`; the engine treats the
/// two alike.
#[derive(Clone, Copy, PartialEq, Eq, Structural)]
pub enum EleType {
    /// An attribute on the element's own tag.
    Attr,
    /// Exactly one nested element with a fixed tag.
    Child,
    /// The element's own text content; at most one per record.
    Text,
    /// A boolean written as the mere presence of a self-closed child.
    SelfClosedChild,
    /// Same as `UntaggedEnum`, kept for older schemas.
    Untag,
    /// A tagged union whose concrete variant is discovered from the
    /// encountered tag, not declared on the field.
    UntaggedEnum,
    /// A nested record whose children are interleaved with the siblings
    /// of the current element.
    UntaggedStruct,
}

/// How many values a field holds.
#[derive(Clone, Copy, PartialEq, Eq, Structural)]
pub enum Arity {
    Required,
    Optional,
    Repeated,
}

/// What a field's items are.
pub enum Payload {
    /// A scalar converted through the value codec.
    Scalar(ScalarKind),
    /// A nested record.
    Rec(Box<RecordSchema>),
    /// A tagged union.
    Uni(Box<UnionSchema>),
    /// An opaque subtree captured verbatim.
    Raw,
}

/// One field of a record schema.
pub struct FieldSchema {
    pub role: EleType,
    /// Attribute or child tag name; empty for text and untagged roles.
    pub name: Vec<u8>,
    pub arity: Arity,
    /// Explicit default value; a field equal to it is skipped on
    /// serialization and absent input falls back to it.
    pub dflt: Option<FieldValue>,
    /// Never emitted on serialization.
    pub skip_serializing: bool,
    pub payload: Payload,
}

/// One record schema.
pub struct RecordSchema {
    /// Root tag, for use as a document entry point.
    pub root: Option<Vec<u8>>,
    /// Default namespace, emitted as `xmlns`.
    pub with_ns: Option<Vec<u8>>,
    /// Prefixed namespaces, emitted as `xmlns:prefix`.
    pub custom_ns: Vec<crate::events::XmlAttr>,
    /// Unknown-field policy: reject undeclared attributes and children.
    pub deny_unknown: bool,
    pub fields: Vec<FieldSchema>,
}

/// What one union variant carries.
pub enum VariantKind {
    /// No payload; legal only for a named variant.
    Unit,
    /// A record payload under the variant's tag.
    Rec(Box<RecordSchema>),
    /// The text-carrying variant: a scalar read from a text event.
    Text(ScalarKind),
}

/// One variant of a union schema. A text variant has an empty tag.
pub struct VariantSchema {
    pub tag: Vec<u8>,
    pub kind: VariantKind,
}

/// A tagged union: an ordered list of variants.
pub struct UnionSchema {
    pub variants: Vec<VariantSchema>,
}

/// Why building a schema failed.
#[derive(Debug)]
pub enum SchemaError {
    /// A text field next to a child, flag or untagged field.
    TextConflict,
    /// An untagged or text field declaring an explicit name, or a named
    /// field without one.
    BadName,
    /// An arity the role cannot carry.
    BadArity,
    /// A payload the role cannot carry.
    BadPayload,
    /// A default value that does not fit the field.
    BadDefault,
    /// More than one text-carrying variant, a named text variant, or a
    /// nameless child variant.
    BadVariant,
    /// An untagged struct whose record holds anything but named children.
    BadUntaggedStruct,
}

/// A value of the given role, seen shape-wise: flags for self-closing
/// children, otherwise the arity wrapper.
pub open spec fn field_fits(f: FieldSchema, fm: FieldM) -> bool
    decreases fm,
{
    if f.role is SelfClosedChild {
        fm is Flag
    } else {
        match f.arity {
            Arity::Required => fm matches FieldM::One(m) && item_fits(f.payload, m),
            Arity::Optional => fm matches FieldM::Opt(o) && match o {
                Some(b) => item_fits(f.payload, *b),
                None => true,
            },
            Arity::Repeated => fm matches FieldM::Many(ms) && items_fit(f.payload, ms),
        }
    }
}

/// Every item of the sequence fits the payload description.
pub open spec fn items_fit(p: Payload, ms: Seq<ItemM>) -> bool
    decreases ms,
{
    forall|i: int| 0 <= i < ms.len() ==> item_fits(p, #[trigger] ms[i])
}

/// An item of the given payload description.
pub open spec fn item_fits(p: Payload, m: ItemM) -> bool
    decreases m,
{
    match (p, m) {
        (Payload::Scalar(k), ItemM::Sc(sm)) => scalar_fits(k, sm),
        (Payload::Rec(s), ItemM::Rec(rm)) => record_fits(*s, rm),
        (Payload::Uni(u), ItemM::Uni(um)) => union_fits(*u, um),
        (Payload::Raw, ItemM::Raw(_)) => true,
        _ => false,
    }
}

/// A union value of the given union schema: variant in range, payload of
/// the variant's kind.
pub open spec fn union_fits(u: UnionSchema, um: UnionM) -> bool
    decreases um,
{
    &&& 0 <= um.variant < u.variants@.len()
    &&& match u.variants@[um.variant].kind {
        VariantKind::Unit => um.payload is None,
        VariantKind::Rec(s) => um.payload matches Some(b) && *b matches ItemM::Rec(rm)
            && record_fits(*s, rm),
        VariantKind::Text(k) => um.payload matches Some(b) && *b matches ItemM::Sc(sm)
            && scalar_fits(k, sm),
    }
}

/// A record value of the given record schema: one field value per field
/// schema, each fitting.
pub open spec fn record_fits(s: RecordSchema, rm: RecordM) -> bool
    decreases rm,
{
    fields_fit(s, rm.fields)
}

/// One fitting field value per field schema, in order.
pub open spec fn fields_fit(s: RecordSchema, fms: Seq<FieldM>) -> bool
    decreases fms,
{
    &&& fms.len() == s.fields@.len()
    &&& forall|i: int| 0 <= i < fms.len() ==> field_fits(s.fields@[i], #[trigger] fms[i])
}

/// The roles that stand in the element body rather than on its tag.
pub open spec fn role_in_body(r: EleType) -> bool {
    r is Child || r is SelfClosedChild || r is Untag || r is UntaggedEnum || r is UntaggedStruct
}

/// An untagged role.
pub open spec fn role_untagged(r: EleType) -> bool {
    r is Untag || r is UntaggedEnum || r is UntaggedStruct
}

/// Well-formedness of one field schema.
pub open spec fn wf_field(f: FieldSchema) -> bool
    decreases f,
{
    &&& match f.role {
        EleType::Attr => {
            &&& f.name@.len() > 0
            &&& !(f.arity is Repeated)
            &&& f.payload is Scalar
        },
        EleType::Child => {
            &&& f.name@.len() > 0
            &&& match f.payload {
                Payload::Scalar(_) => false,
                Payload::Rec(s) => wf_record(*s),
                Payload::Uni(u) => wf_union(*u),
                Payload::Raw => true,
            }
        },
        EleType::Text => {
            &&& f.name@.len() == 0
            &&& !(f.arity is Repeated)
            &&& f.payload is Scalar
        },
        EleType::SelfClosedChild => {
            &&& f.name@.len() > 0
            &&& f.arity is Required
            &&& f.payload matches Payload::Scalar(k) && k is Bool
            &&& f.dflt is None
        },
        EleType::Untag | EleType::UntaggedEnum => {
            &&& f.name@.len() == 0
            &&& f.payload matches Payload::Uni(u) && wf_union(*u)
        },
        EleType::UntaggedStruct => {
            &&& f.name@.len() == 0
            &&& !(f.arity is Repeated)
            &&& f.payload matches Payload::Rec(s) && wf_record(*s) && children_only(*s)
        },
    }
    &&& match f.dflt {
        Some(d) => field_fits(f, field_model(d)),
        None => true,
    }
}

/// A record whose every field is a named child; only such a record can
/// absorb siblings as an untagged struct.
pub open spec fn children_only(s: RecordSchema) -> bool {
    forall|i: int| 0 <= i < s.fields@.len() ==> (#[trigger] s.fields@[i].role) is Child
}

/// Well-formedness of a union schema: every named variant has a tag, the
/// text variant is single and nameless, and payload records are sound.
pub open spec fn wf_union(u: UnionSchema) -> bool
    decreases u,
{
    &&& forall|i: int|
        0 <= i < u.variants@.len() ==> match (#[trigger] u.variants@[i]).kind {
            VariantKind::Unit => u.variants@[i].tag@.len() > 0,
            VariantKind::Rec(s) => u.variants@[i].tag@.len() > 0 && wf_record(*s),
            VariantKind::Text(_) => u.variants@[i].tag@.len() == 0,
        }
    &&& forall|i: int, j: int|
        0 <= i < j < u.variants@.len() ==> !((#[trigger] u.variants@[i].kind) is Text
            && (#[trigger] u.variants@[j].kind) is Text)
}

/// Well-formedness of a record schema: sound fields, at most one text
/// field, and a text field excludes every body field.
pub open spec fn wf_record(s: RecordSchema) -> bool
    decreases s,
{
    &&& forall|i: int| 0 <= i < s.fields@.len() ==> wf_field(#[trigger] s.fields@[i])
    &&& forall|i: int, j: int|
        0 <= i < s.fields@.len() && 0 <= j < s.fields@.len() && i != j && (
        #[trigger] s.fields@[i].role) is Text ==> !((#[trigger] s.fields@[j].role) is Text)
            && !role_in_body(s.fields@[j].role)
}

/// A field must have received a value by the end of deserialization:
/// required arity, no default, and a role that can miss at all.
pub open spec fn spec_is_required(f: FieldSchema) -> bool {
    if f.role is Untag || f.role is UntaggedEnum {
        f.arity is Required
    } else {
        f.dflt is None && f.arity is Required && !(f.role is SelfClosedChild)
    }
}

impl FieldSchema {
    /// Whether deserialization must fail when this field never received a
    /// value.
    pub fn is_required(&self) -> (r: bool)
        ensures
            r == spec_is_required(*self),
    {
        match self.role {
            EleType::Untag | EleType::UntaggedEnum => self.arity == Arity::Required,
            EleType::SelfClosedChild => false,
            _ => self.dflt.is_none() && self.arity == Arity::Required,
        }
    }
}

/// The field list of a record schema partitioned by role: each list
/// holds the indices of the fields of that role, in declaration order.
/// `Untag` and `UntaggedEnum` fields stand together, as the engine treats
/// them alike.
pub struct FieldsSummary {
    pub attrs: Vec<usize>,
    pub children: Vec<usize>,
    pub text: Option<usize>,
    pub self_closed_children: Vec<usize>,
    pub untagged_enums: Vec<usize>,
    pub untagged_structs: Vec<usize>,
}

/// The indices below `n` listed are exactly the indices of the fields
/// with the given roles among the first `n`, ascending.
pub open spec fn partition_upto(
    fs: Seq<FieldSchema>,
    ixs: Seq<usize>,
    r1: EleType,
    r2: EleType,
    n: int,
) -> bool {
    &&& forall|k: int|
        0 <= k < ixs.len() ==> (#[trigger] ixs[k]) < n && ixs[k] < fs.len() && (fs[ixs[k] as int].role
            == r1 || fs[ixs[k] as int].role == r2)
    &&& forall|k: int, l: int| 0 <= k < l < ixs.len() ==> ixs[k] < ixs[l]
    &&& forall|j: int|
        0 <= j < n && j < fs.len() && ((#[trigger] fs[j].role) == r1 || fs[j].role == r2)
            ==> exists|k: int| 0 <= k < ixs.len() && ixs[k] == j
}

/// The indices listed are exactly the indices of the fields with the
/// given roles, ascending.
pub open spec fn is_role_partition(
    fs: Seq<FieldSchema>,
    ixs: Seq<usize>,
    r1: EleType,
    r2: EleType,
) -> bool {
    partition_upto(fs, ixs, r1, r2, fs.len() as int)
}

/// One step of partitioning: appending index `i` exactly when field `i`
/// has one of the roles extends a partition of the first `i` fields to
/// one of the first `i + 1`.
proof fn lemma_partition_step(
    fs: Seq<FieldSchema>,
    old_ixs: Seq<usize>,
    new_ixs: Seq<usize>,
    r1: EleType,
    r2: EleType,
    i: usize,
)
    requires
        i < fs.len(),
        partition_upto(fs, old_ixs, r1, r2, i as int),
        (fs[i as int].role == r1 || fs[i as int].role == r2) ==> new_ixs == old_ixs.push(i),
        !(fs[i as int].role == r1 || fs[i as int].role == r2) ==> new_ixs == old_ixs,
    ensures
        partition_upto(fs, new_ixs, r1, r2, i + 1),
{
    assert forall|j: int|
        0 <= j < i + 1 && j < fs.len() && ((#[trigger] fs[j].role) == r1 || fs[j].role == r2)
            implies exists|k: int| 0 <= k < new_ixs.len() && new_ixs[k] == j by {
        if j < i as int {
            let k0 = choose|k: int| 0 <= k < old_ixs.len() && old_ixs[k] == j;
            assert(new_ixs[k0] == j);
        } else {
            assert(new_ixs == old_ixs.push(i));
            assert(new_ixs[new_ixs.len() - 1] == j);
        }
    }
}

impl FieldsSummary {
    /// Partition a record's fields by role.
    pub fn from_fields(s: &RecordSchema) -> (r: FieldsSummary)
        ensures
            is_role_partition(s.fields@, r.attrs@, EleType::Attr, EleType::Attr),
            is_role_partition(s.fields@, r.children@, EleType::Child, EleType::Child),
            is_role_partition(
                s.fields@,
                r.self_closed_children@,
                EleType::SelfClosedChild,
                EleType::SelfClosedChild,
            ),
            is_role_partition(s.fields@, r.untagged_enums@, EleType::Untag, EleType::UntaggedEnum),
            is_role_partition(
                s.fields@,
                r.untagged_structs@,
                EleType::UntaggedStruct,
                EleType::UntaggedStruct,
            ),
            match r.text {
                Some(i) => i < s.fields@.len() && s.fields@[i as int].role is Text && forall|
                    j: int,
                |
                    i < j < s.fields@.len() ==> !((#[trigger] s.fields@[j].role) is Text),
                None => forall|j: int|
                    0 <= j < s.fields@.len() ==> !((#[trigger] s.fields@[j].role) is Text),
            },
    {
        let mut out = FieldsSummary {
            attrs: Vec::new(),
            children: Vec::new(),
            text: None,
            self_closed_children: Vec::new(),
            untagged_enums: Vec::new(),
            untagged_structs: Vec::new(),
        };
        let mut i: usize = 0;
        while i < s.fields.len()
            invariant
                0 <= i <= s.fields@.len(),
                partition_upto(s.fields@, out.attrs@, EleType::Attr, EleType::Attr, i as int),
                partition_upto(s.fields@, out.children@, EleType::Child, EleType::Child, i as int),
                partition_upto(
                    s.fields@,
                    out.self_closed_children@,
                    EleType::SelfClosedChild,
                    EleType::SelfClosedChild,
                    i as int,
                ),
                partition_upto(
                    s.fields@,
                    out.untagged_enums@,
                    EleType::Untag,
                    EleType::UntaggedEnum,
                    i as int,
                ),
                partition_upto(
                    s.fields@,
                    out.untagged_structs@,
                    EleType::UntaggedStruct,
                    EleType::UntaggedStruct,
                    i as int,
                ),
                match out.text {
                    Some(t) => t < i && s.fields@[t as int].role is Text && forall|j: int|
                        t < j < i ==> !((#[trigger] s.fields@[j].role) is Text),
                    None => forall|j: int| 0 <= j < i ==> !((#[trigger] s.fields@[j].role) is Text),
                },
            decreases s.fields@.len() - i,
        {
            let ghost a0 = out.attrs@;
            let ghost ch0 = out.children@;
            let ghost c0 = out.self_closed_children@;
            let ghost ue0 = out.untagged_enums@;
            let ghost us0 = out.untagged_structs@;
            match s.fields[i].role {
                EleType::Attr => out.attrs.push(i),
                EleType::Child => out.children.push(i),
                EleType::Text => out.text = Some(i),
                EleType::SelfClosedChild => out.self_closed_children.push(i),
                EleType::Untag | EleType::UntaggedEnum => out.untagged_enums.push(i),
                EleType::UntaggedStruct => out.untagged_structs.push(i),
            }
            proof {
                lemma_partition_step(s.fields@, a0, out.attrs@, EleType::Attr, EleType::Attr, i);
                lemma_partition_step(
                    s.fields@,
                    ch0,
                    out.children@,
                    EleType::Child,
                    EleType::Child,
                    i,
                );
                lemma_partition_step(
                    s.fields@,
                    c0,
                    out.self_closed_children@,
                    EleType::SelfClosedChild,
                    EleType::SelfClosedChild,
                    i,
                );
                lemma_partition_step(
                    s.fields@,
                    ue0,
                    out.untagged_enums@,
                    EleType::Untag,
                    EleType::UntaggedEnum,
                    i,
                );
                lemma_partition_step(
                    s.fields@,
                    us0,
                    out.untagged_structs@,
                    EleType::UntaggedStruct,
                    EleType::UntaggedStruct,
                    i,
                );
            }
            i += 1;
        }
        out
    }
}

} // verus!