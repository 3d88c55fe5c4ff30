//! The boundary to `quick-xml`: the only trusted items of the library.
//!
//! Reading: a stateful tokenizer handle yields one event per call, already
//! converted to the engine's plain [`XmlEvent`] values; nothing is assumed
//! about what comes back, and the automaton is verified for every event
//! sequence. Writing: each event kind is turned into its text by one call
//! into `quick-xml`'s writer, and the text of an event is named by an
//! uninterpreted function of the event's parts alone, so that the whole
//! output string is pinned down as the concatenation of those parts.

use vstd::prelude::*;

use crate::errors::XmlError;
use crate::events::AttrM;
use crate::events::EventM;
use crate::events::XmlAttr;
use crate::events::XmlEvent;
use crate::events::attrs_model;
use crate::events::events_model;

verus! {

broadcast use vstd::seq::axiom_seq_index_decreases, vstd::seq::axiom_seq_subrange_decreases, vstd::std_specs::vec::axiom_vec_decreases_to_view;

#[verifier::external_type_specification]
#[verifier::external_body]
#[verifier::reject_recursive_types(R)]
pub struct ExReader<R>(quick_xml::Reader<R>);

#[verifier::external_type_specification]
#[verifier::external_body]
pub struct ExBytesStart<'a>(quick_xml::events::BytesStart<'a>);

#[verifier::external_type_specification]
#[verifier::external_body]
pub struct ExBytesRef<'a>(quick_xml::events::BytesRef<'a>);

#[verifier::external_type_specification]
#[verifier::external_body]
pub struct ExBytesEnd<'a>(quick_xml::events::BytesEnd<'a>);

#[verifier::external_type_specification]
#[verifier::external_body]
pub struct ExBytesText<'a>(quick_xml::events::BytesText<'a>);

#[verifier::external_type_specification]
#[verifier::external_body]
pub struct ExBytesCData<'a>(quick_xml::events::BytesCData<'a>);

#[verifier::external_type_specification]
#[verifier::external_body]
pub struct ExAttribute<'a>(quick_xml::events::attributes::Attribute<'a>);

#[verifier::external_type_specification]
#[verifier::external_body]
pub struct ExAttrError(quick_xml::events::attributes::AttrError);

/// A live tokenizer over an in-memory document.
pub struct EventReader<'a> {
    inner: quick_xml::Reader<&'a [u8]>,
}

/// What one tokenizer step yields: an event of interest, something the
/// engine ignores (comments, processing instructions, the prolog), the end
/// of the document, or a tokenizer failure.
pub enum RawEvent {
    Ev(XmlEvent),
    Skip,
    Eof,
    Fail,
}

/// Relies on quick_xml::Reader::from_str: a tokenizer positioned at the
/// start of the text.
#[verifier::external_body]
pub fn reader_from_str<'a>(s: &'a str) -> (r: EventReader<'a>) {
    EventReader { inner: quick_xml::Reader::from_str(s) }
}

/// Relies on quick_xml::Reader::read_event for the next raw event; start
/// and empty tags are converted with their attributes, text and CDATA
/// become text content, entity references become the text they stand for,
/// and comments, the prolog, processing instructions and doctypes are
/// skipped. Nothing is assumed about the outcome: callers handle every
/// possible event sequence.
#[verifier::external_body]
pub fn read_next(r: &mut EventReader<'_>) -> (e: RawEvent) {
    match r.inner.read_event() {
        Ok(quick_xml::events::Event::Start(s)) => conv_elem(s, false),
        Ok(quick_xml::events::Event::Empty(s)) => conv_elem(s, true),
        Ok(quick_xml::events::Event::End(e)) => conv_end(e),
        Ok(quick_xml::events::Event::Text(t)) => conv_text(t),
        Ok(quick_xml::events::Event::CData(c)) => conv_cdata(c),
        Ok(quick_xml::events::Event::GeneralRef(g)) => conv_ref(g),
        Ok(quick_xml::events::Event::Eof) => RawEvent::Eof,
        Ok(_) => RawEvent::Skip,
        Err(_) => RawEvent::Fail,
    }
}

/// Relies on quick_xml::events::BytesStart: the tag name and the
/// attributes of a start or empty tag.
#[verifier::external_body]
fn conv_elem(e: quick_xml::events::BytesStart<'_>, empty: bool) -> (r: RawEvent) {
    let mut attrs: Vec<XmlAttr> = Vec::new();
    for a in e.attributes() {
        match conv_attr(a) {
            Some(at) => attrs.push(at),
            None => return RawEvent::Fail,
        }
    }
    let name = e.name().into_inner().as_bytes().to_vec();
    if empty {
        RawEvent::Ev(XmlEvent::Empty { name, attrs })
    } else {
        RawEvent::Ev(XmlEvent::Start { name, attrs })
    }
}

/// Relies on quick_xml::events::attributes::Attribute: the attribute's
/// name and its value, unescaped and normalized with
/// Attribute::normalized_value.
#[verifier::external_body]
fn conv_attr(
    a: Result<quick_xml::events::attributes::Attribute<'_>, quick_xml::events::attributes::AttrError>,
) -> (r: Option<XmlAttr>) {
    let at = a.ok()?;
    let value = at.normalized_value(quick_xml::XmlVersion::Implicit1_0).ok()?.into_owned()
        .into_bytes();
    Some(XmlAttr { name: at.key.into_inner().as_bytes().to_vec(), value })
}

/// Relies on quick_xml::events::BytesEnd: the name of an end tag.
#[verifier::external_body]
fn conv_end(e: quick_xml::events::BytesEnd<'_>) -> (r: RawEvent) {
    RawEvent::Ev(XmlEvent::End { name: e.name().into_inner().as_bytes().to_vec() })
}

/// Relies on quick_xml::events::BytesText::xml10_content: the content of
/// a text event, with line endings normalized.
#[verifier::external_body]
fn conv_text(t: quick_xml::events::BytesText<'_>) -> (r: RawEvent) {
    RawEvent::Ev(XmlEvent::Text { content: t.xml10_content().into_owned().into_bytes() })
}

/// Relies on quick_xml::events::BytesCData::into_inner: the verbatim
/// content of a CDATA section, kept as text.
#[verifier::external_body]
fn conv_cdata(c: quick_xml::events::BytesCData<'_>) -> (r: RawEvent) {
    RawEvent::Ev(XmlEvent::Text { content: c.into_inner().into_owned().into_bytes() })
}

/// Relies on quick_xml::events::BytesRef::resolve_char_ref and
/// quick_xml::escape::resolve_predefined_entity: an entity or character
/// reference in text becomes the text it stands for; an unknown entity is
/// a failure.
#[verifier::external_body]
fn conv_ref(g: quick_xml::events::BytesRef<'_>) -> (r: RawEvent) {
    match g.resolve_char_ref() {
        Ok(Some(c)) => RawEvent::Ev(XmlEvent::Text { content: c.to_string().into_bytes() }),
        Ok(None) => {
            match quick_xml::escape::resolve_predefined_entity(&g.xml10_content()) {
                Some(s) => RawEvent::Ev(XmlEvent::Text { content: s.as_bytes().to_vec() }),
                None => RawEvent::Fail,
            }
        },
        Err(_) => RawEvent::Fail,
    }
}

/// No two adjacent text events: contiguous character data always
/// arrives as one event.
pub open spec fn no_adjacent_text(evs: Seq<EventM>) -> bool {
    forall|i: int|
        0 <= i < evs.len() - 1 ==> !((#[trigger] evs[i]) is Text && evs[i + 1] is Text)
}

/// Append one byte string onto another.
fn extend_bytes(a: &mut Vec<u8>, b: &Vec<u8>)
    ensures
        final(a)@ == old(a)@ + b@,
{
    let mut i: usize = 0;
    while i < b.len()
        invariant
            0 <= i <= b.len(),
            a@ == old(a)@ + b@.subrange(0, i as int),
        decreases b.len() - i,
    {
        a.push(b[i]);
        proof {
            assert(old(a)@ + b@.subrange(0, i + 1 as int) =~= (old(a)@ + b@.subrange(
                0,
                i as int,
            )).push(b@[i as int]));
        }
        i += 1;
    }
    proof {
        assert(old(a)@ + b@.subrange(0, b@.len() as int) =~= old(a)@ + b@);
    }
}

/// Push one tokenized event, merging a text event into an immediately
/// preceding text event so that contiguous character data — split by the
/// tokenizer around entity references and CDATA — arrives as one event.
fn push_merged(out: &mut Vec<XmlEvent>, e: XmlEvent)
    ensures
        no_adjacent_text(events_model(old(out)@)) ==> no_adjacent_text(
            events_model(final(out)@),
        ),
{
    let ghost before = events_model(out@);
    let ghost em = e@;
    if out.len() > 0 && matches!(&e, XmlEvent::Text { .. }) {
        let last_is_text = matches!(&out[out.len() - 1], XmlEvent::Text { .. });
        if last_is_text {
            match (out.pop(), e) {
                (Some(XmlEvent::Text { content: mut a }), XmlEvent::Text { content: b }) => {
                    extend_bytes(&mut a, &b);
                    out.push(XmlEvent::Text { content: a });
                    proof {
                        let now = events_model(out@);
                        assert(now.len() == before.len());
                        assert forall|i: int|
                            0 <= i < now.len() - 1 implies no_adjacent_text(before) ==> !((
                        #[trigger] now[i]) is Text && now[i + 1] is Text) by {
                            if i < now.len() - 2 {
                                assert(now[i] == before[i]);
                                assert(now[i + 1] == before[i + 1]);
                            } else {
                                assert(now[i] == before[i]);
                                assert(before[i + 1] is Text);
                            }
                        }
                    }
                },
                _ => {},
            }
            return ;
        }
        out.push(e);
        proof {
            let now = events_model(out@);
            assert forall|i: int|
                0 <= i < now.len() - 1 implies no_adjacent_text(before) ==> !((#[trigger] now[i])
                is Text && now[i + 1] is Text) by {
                if i < now.len() - 2 {
                    assert(now[i] == before[i]);
                    assert(now[i + 1] == before[i + 1]);
                } else {
                    assert(now[i] == before[i]);
                    assert(!(before[before.len() - 1] is Text));
                }
            }
        }
        return ;
    }
    out.push(e);
    proof {
        let now = events_model(out@);
        assert forall|i: int|
            0 <= i < now.len() - 1 implies no_adjacent_text(before) ==> !((#[trigger] now[i])
            is Text && now[i + 1] is Text) by {
            if i < now.len() - 2 {
                assert(now[i] == before[i]);
                assert(now[i + 1] == before[i + 1]);
            } else {
                assert(now[i] == before[i]);
                assert(now[i + 1] == em);
                assert(!(em is Text) || before.len() == 0 || !(before[before.len() - 1] is Text));
            }
        }
    }
}

/// Tokenize a whole document into the engine's events; contiguous text
/// arrives as one event. The loop is bounded by the byte length of the
/// input plus one: every event of a well-formed document consumes at
/// least one byte, so the bound is never the reason a real document
/// fails. What each event holds comes from the tokenizer and is stated
/// nowhere: the engine behind this function is verified for every event
/// sequence.
pub fn parse_events(xml: &str) -> (r: Result<Vec<XmlEvent>, XmlError>)
    ensures
        r matches Ok(evs) ==> no_adjacent_text(events_model(evs@)),
        r matches Err(e) ==> e@ is Malformed,
{
    let mut reader = reader_from_str(xml);
    let mut out: Vec<XmlEvent> = Vec::new();
    let fuel: usize = xml.len();
    let mut step: usize = 0;
    loop
        invariant
            step <= fuel,
            no_adjacent_text(events_model(out@)),
        decreases fuel - step,
    {
        match read_next(&mut reader) {
            RawEvent::Ev(e) => push_merged(&mut out, e),
            RawEvent::Skip => {},
            RawEvent::Eof => {
                return Ok(out);
            },
            RawEvent::Fail => {
                return Err(XmlError::Malformed);
            },
        }
        if step == fuel {
            return Err(XmlError::Malformed);
        }
        step += 1;
    }
}

/// The text quick-xml writes for a start tag with the given name and
/// attributes.
pub uninterp spec fn start_chars(name: Seq<u8>, attrs: Seq<AttrM>) -> Seq<char>;

/// The text quick-xml writes for a self-closed tag with the given name and
/// attributes.
pub uninterp spec fn empty_chars(name: Seq<u8>, attrs: Seq<AttrM>) -> Seq<char>;

/// The text quick-xml writes for an end tag with the given name.
pub uninterp spec fn end_chars(name: Seq<u8>) -> Seq<char>;

/// The text quick-xml writes for text content: the content, escaped.
pub uninterp spec fn text_chars(content: Seq<u8>) -> Seq<char>;

/// The text one event writes as.
pub open spec fn event_chars(e: EventM) -> Seq<char> {
    match e {
        EventM::Start(name, attrs) => start_chars(name, attrs),
        EventM::Empty(name, attrs) => empty_chars(name, attrs),
        EventM::End(name) => end_chars(name),
        EventM::Text(content) => text_chars(content),
    }
}

/// The text a whole event sequence writes as: the concatenation, in order,
/// of each event's text.
pub open spec fn chars_of_events(evs: Seq<EventM>) -> Seq<char>
    decreases evs,
{
    if evs.len() == 0 {
        Seq::empty()
    } else {
        chars_of_events(evs.drop_last()) + event_chars(evs.last())
    }
}

/// Relies on std's String::from_utf8_lossy to show a byte string as
/// text.
#[verifier::external_body]
fn lossy(v: &Vec<u8>) -> (r: String) {
    String::from_utf8_lossy(v).into_owned()
}

/// Relies on quick_xml::Writer::write_event with an Event::Start or
/// Event::Empty built from the name and attributes; attribute values are
/// escaped by quick_xml::events::attributes::Attribute's constructor.
#[verifier::external_body]
fn start_tag_string(name: &Vec<u8>, attrs: &Vec<XmlAttr>, empty: bool) -> (r: String)
    ensures
        r@ == if empty {
            empty_chars(name@, attrs_model(attrs@))
        } else {
            start_chars(name@, attrs_model(attrs@))
        },
{
    let mut st = quick_xml::events::BytesStart::new(lossy(name));
    for a in attrs.iter() {
        st.push_attribute((lossy(&a.name).as_str(), lossy(&a.value).as_str()));
    }
    let mut w = quick_xml::Writer::new(Vec::new());
    let _ = if empty {
        w.write_event(quick_xml::events::Event::Empty(st))
    } else {
        w.write_event(quick_xml::events::Event::Start(st))
    };
    lossy(&w.into_inner())
}

/// Relies on quick_xml::Writer::write_event with an Event::End built from
/// the name.
#[verifier::external_body]
fn end_tag_string(name: &Vec<u8>) -> (r: String)
    ensures
        r@ == end_chars(name@),
{
    let mut w = quick_xml::Writer::new(Vec::new());
    let _ = w.write_event(
        quick_xml::events::Event::End(quick_xml::events::BytesEnd::new(lossy(name))),
    );
    lossy(&w.into_inner())
}

/// Relies on quick_xml::Writer::write_event with an Event::Text built from
/// the content, which escapes it.
#[verifier::external_body]
fn text_string(content: &Vec<u8>) -> (r: String)
    ensures
        r@ == text_chars(content@),
{
    let owned = lossy(content);
    let mut w = quick_xml::Writer::new(Vec::new());
    let _ = w.write_event(
        quick_xml::events::Event::Text(quick_xml::events::BytesText::new(owned.as_str())),
    );
    lossy(&w.into_inner())
}

/// Write a whole event sequence as text: the concatenation of each
/// event's text, in order.
pub fn events_to_string(evs: &Vec<XmlEvent>) -> (r: String)
    ensures
        r@ == chars_of_events(events_model(evs@)),
{
    let mut out = String::new();
    let mut i: usize = 0;
    while i < evs.len()
        invariant
            0 <= i <= evs.len(),
            out@ == chars_of_events(events_model(evs@.subrange(0, i as int))),
        decreases evs.len() - i,
    {
        let piece: String = match &evs[i] {
            XmlEvent::Start { name, attrs } => start_tag_string(name, attrs, false),
            XmlEvent::Empty { name, attrs } => start_tag_string(name, attrs, true),
            XmlEvent::End { name } => end_tag_string(name),
            XmlEvent::Text { content } => text_string(content),
        };
        out.append(piece.as_str());
        proof {
            let sub = events_model(evs@.subrange(0, i + 1 as int));
            assert(evs@.subrange(0, i + 1 as int).drop_last() =~= evs@.subrange(0, i as int));
            assert(events_model(evs@.subrange(0, i + 1 as int)).drop_last() =~= events_model(
                evs@.subrange(0, i as int),
            ));
            assert(sub.last() == evs@[i as int]@);
            assert(out@ == chars_of_events(events_model(evs@.subrange(0, i + 1 as int))));
        }
        i += 1;
    }
    proof {
        assert(evs@.subrange(0, evs@.len() as int) =~= evs@);
    }
    out
}

} // verus!
