//! The XML event stream the engine consumes and produces.
//!
//! Attribute values and text content are stored unescaped; the tokenizer
//! wrappers decode entity references on the way in and the writer wrappers
//! escape on the way out.

use vstd::prelude::*;

verus! {

/// One attribute of a start or empty-element event. The value is the
/// logical (unescaped) text.
pub struct XmlAttr {
    pub name: Vec<u8>,
    pub value: Vec<u8>,
}

/// One event of the stream. End-of-stream is not an event: a parsed
/// document is a finite sequence.
pub enum XmlEvent {
    Start { name: Vec<u8>, attrs: Vec<XmlAttr> },
    Empty { name: Vec<u8>, attrs: Vec<XmlAttr> },
    End { name: Vec<u8> },
    Text { content: Vec<u8> },
}

/// Mathematical model of an attribute: (name, value).
pub type AttrM = (Seq<u8>, Seq<u8>);

/// Mathematical model of an event.
pub enum EventM {
    Start(Seq<u8>, Seq<AttrM>),
    Empty(Seq<u8>, Seq<AttrM>),
    End(Seq<u8>),
    Text(Seq<u8>),
}

impl View for XmlAttr {
    type V = AttrM;

    open spec fn view(&self) -> AttrM {
        (self.name@, self.value@)
    }
}

/// Model of an attribute list.
pub open spec fn attrs_model(attrs: Seq<XmlAttr>) -> Seq<AttrM> {
    attrs.map_values(|a: XmlAttr| a@)
}

impl View for XmlEvent {
    type V = EventM;

    open spec fn view(&self) -> EventM {
        match self {
            XmlEvent::Start { name, attrs } => EventM::Start(name@, attrs_model(attrs@)),
            XmlEvent::Empty { name, attrs } => EventM::Empty(name@, attrs_model(attrs@)),
            XmlEvent::End { name } => EventM::End(name@),
            XmlEvent::Text { content } => EventM::Text(content@),
        }
    }
}

/// Model of an event list.
pub open spec fn events_model(evs: Seq<XmlEvent>) -> Seq<EventM> {
    evs.map_values(|e: XmlEvent| e@)
}

impl Clone for XmlAttr {
    fn clone(&self) -> (r: Self)
        ensures
            r@ == self@,
    {
        XmlAttr { name: clone_bytes(&self.name), value: clone_bytes(&self.value) }
    }
}

impl Clone for XmlEvent {
    fn clone(&self) -> (r: Self)
        ensures
            r@ == self@,
    {
        match self {
            XmlEvent::Start { name, attrs } => XmlEvent::Start {
                name: clone_bytes(name),
                attrs: clone_attrs(attrs),
            },
            XmlEvent::Empty { name, attrs } => XmlEvent::Empty {
                name: clone_bytes(name),
                attrs: clone_attrs(attrs),
            },
            XmlEvent::End { name } => XmlEvent::End { name: clone_bytes(name) },
            XmlEvent::Text { content } => XmlEvent::Text { content: clone_bytes(content) },
        }
    }
}

/// Byte-vector copy with an exact contract.
pub fn clone_bytes(v: &Vec<u8>) -> (r: Vec<u8>)
    ensures
        r@ == v@,
{
    let mut out: Vec<u8> = Vec::new();
    let mut i: usize = 0;
    while i < v.len()
        invariant
            0 <= i <= v.len(),
            out@ == v@.subrange(0, i as int),
        decreases v.len() - i,
    {
        out.push(v[i]);
        proof {
            assert(v@.subrange(0, i + 1 as int) =~= v@.subrange(0, i as int).push(v@[i as int]));
        }
        i += 1;
    }
    proof {
        assert(v@.subrange(0, v@.len() as int) =~= v@);
    }
    out
}

/// Copy of a byte slice into an owned vector, with an exact contract.
pub fn slice_to_bytes(v: &[u8]) -> (r: Vec<u8>)
    ensures
        r@ == v@,
{
    let mut out: Vec<u8> = Vec::new();
    let mut i: usize = 0;
    while i < v.len()
        invariant
            0 <= i <= v.len(),
            out@ == v@.subrange(0, i as int),
        decreases v.len() - i,
    {
        out.push(v[i]);
        proof {
            assert(v@.subrange(0, i + 1 as int) =~= v@.subrange(0, i as int).push(v@[i as int]));
        }
        i += 1;
    }
    proof {
        assert(v@.subrange(0, v@.len() as int) =~= v@);
    }
    out
}

/// Attribute-list copy with an exact contract.
pub fn clone_attrs(attrs: &Vec<XmlAttr>) -> (r: Vec<XmlAttr>)
    ensures
        attrs_model(r@) == attrs_model(attrs@),
        r@.len() == attrs@.len(),
{
    let mut out: Vec<XmlAttr> = Vec::new();
    let mut i: usize = 0;
    while i < attrs.len()
        invariant
            0 <= i <= attrs.len(),
            out@.len() == i,
            attrs_model(out@) == attrs_model(attrs@.subrange(0, i as int)),
        decreases attrs.len() - i,
    {
        out.push(attrs[i].clone());
        proof {
            assert(attrs_model(attrs@.subrange(0, i + 1 as int)) =~= attrs_model(
                attrs@.subrange(0, i as int),
            ).push(attrs@[i as int]@));
            assert(attrs_model(out@) =~= attrs_model(attrs@.subrange(0, i + 1 as int)));
        }
        i += 1;
    }
    proof {
        assert(attrs@.subrange(0, attrs@.len() as int) =~= attrs@);
    }
    out
}

} // verus!
