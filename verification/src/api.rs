//! The entry points: serialize a record to text, with or without the XML
//! prolog, and deserialize one from text, scanning forward to the schema's
//! declared root tag.

use vstd::prelude::*;

use crate::bytes::bytes_eq;
use crate::de::de_rec_m;
use crate::de::de_record;
use crate::de::max_fuel;
use crate::errors::XmlError;
use crate::errors::XmlErrorM;
use crate::events::EventM;
use crate::events::XmlEvent;
use crate::events::clone_bytes;
use crate::events::events_model;
use crate::values::FieldM;
use crate::schema::RecordSchema;
use crate::schema::record_fits;
use crate::schema::wf_record;
use crate::ser::ser_record;
use crate::ser::ser_record_m;
use crate::values::RecordValue;
use crate::values::Unparsed;
use crate::xml_io::chars_of_events;
use crate::xml_io::events_to_string;
use crate::xml_io::parse_events;

verus! {

/// The XML prolog emitted by [`xml_serialize_with_decl`].
pub open spec fn decl_chars() -> Seq<char> {
    "<?xml version=\"1.0\" encoding=\"UTF-8\" standalone=\"yes\"?>"@
}

/// Serialize a record under its schema's root tag. The output is the text
/// of exactly the events the serialization planner decides on.
pub fn xml_serialize(s: &RecordSchema, v: &RecordValue) -> (r: String)
    requires
        record_fits(*s, v@),
        s.root is Some,
    ensures
        s.root matches Some(t) ==> r@ == chars_of_events(ser_record_m(*s, v@, t@)),
{
    let mut evs: Vec<XmlEvent> = Vec::new();
    match &s.root {
        Some(root) => {
            ser_record(s, v, root.as_slice(), &mut evs);
            proof {
                assert(events_model(evs@) =~= ser_record_m(*s, v@, root@));
            }
            events_to_string(&evs)
        },
        None => {
            proof {
                assert(false);
            }
            String::new()
        },
    }
}

/// Serialize a record with the XML prolog in front.
pub fn xml_serialize_with_decl(s: &RecordSchema, v: &RecordValue) -> (r: String)
    requires
        record_fits(*s, v@),
        s.root is Some,
    ensures
        s.root matches Some(t) ==> r@ == decl_chars() + chars_of_events(ser_record_m(*s, v@, t@)),
{
    let mut out = String::from_str("<?xml version=\"1.0\" encoding=\"UTF-8\" standalone=\"yes\"?>");
    let body = xml_serialize(s, v);
    out.append(body.as_str());
    out
}

/// Deserialize a record from text: tokenize, scan forward until the
/// schema's root tag opens an element at any depth, and run the automaton
/// on that element. Reaching the end of the stream without meeting the
/// root tag is a root-not-found failure naming the tag.
///
/// What the tokenizer yields for a given text is not stated — the reader
/// behind [`parse_events`] is opaque — so this function promises only
/// that a success fits the schema. Everything after tokenization is
/// pinned down by [`deserialize_from_events`], which is exact for every
/// event sequence.
pub fn xml_deserialize_from_str(s: &RecordSchema, xml: &str) -> (r: Result<RecordValue, XmlError>)
    requires
        wf_record(*s),
        s.root is Some,
    ensures
        r matches Ok(v) ==> record_fits(*s, v@),
{
    match &s.root {
        Some(root) => {
            let evs = match parse_events(xml) {
                Ok(evs) => evs,
                Err(e) => {
                    return Err(e);
                },
            };
            deserialize_from_events(s, root, &evs)
        },
        None => {
            proof {
                assert(false);
            }
            Err(XmlError::Malformed)
        },
    }
}

/// The outcome of a whole document against a schema: the first start or
/// empty event named by the root tag, at any depth, is handed to the
/// automaton with the engine's full fuel; a stream without such an event
/// is a root-not-found failure naming the tag.
pub open spec fn find_root_m(
    s: RecordSchema,
    root: Seq<u8>,
    evs: Seq<EventM>,
    i: int,
) -> Result<Seq<FieldM>, XmlErrorM>
    decreases evs.len() - i,
{
    if i < 0 || i >= evs.len() {
        Err(XmlErrorM::RootNotFound(root))
    } else {
        match evs[i] {
            EventM::Start(name, attrs) => {
                if name == root {
                    match de_rec_m(max_fuel(), s, root, attrs, false, evs, i + 1) {
                        Ok((fms, _)) => Ok(fms),
                        Err(e) => Err(e),
                    }
                } else {
                    find_root_m(s, root, evs, i + 1)
                }
            },
            EventM::Empty(name, attrs) => {
                if name == root {
                    match de_rec_m(max_fuel(), s, root, attrs, true, evs, i + 1) {
                        Ok((fms, _)) => Ok(fms),
                        Err(e) => Err(e),
                    }
                } else {
                    find_root_m(s, root, evs, i + 1)
                }
            },
            _ => find_root_m(s, root, evs, i + 1),
        }
    }
}

/// Deserialize a record from an already-tokenized event stream, exactly
/// as [`find_root_m`] says: scan forward to the first element the root
/// tag opens, at any depth, and run the automaton on it.
pub fn deserialize_from_events(s: &RecordSchema, root: &Vec<u8>, evs: &Vec<XmlEvent>) -> (r: Result<
    RecordValue,
    XmlError,
>)
    requires
        wf_record(*s),
    ensures
        r matches Ok(v) ==> record_fits(*s, v@),
        match find_root_m(*s, root@, events_model(evs@), 0) {
            Ok(fms) => r matches Ok(v) && v@.fields == fms,
            Err(em) => r matches Err(e) && e@ == em,
        },
{
    let ghost evm = events_model(evs@);
    let mut i: usize = 0;
    while i < evs.len()
        invariant
            0 <= i <= evs@.len(),
            wf_record(*s),
            evm == events_model(evs@),
            find_root_m(*s, root@, evm, 0) == find_root_m(*s, root@, evm, i as int),
        decreases evs@.len() - i,
    {
        proof {
            assert(evm[i as int] == evs@[i as int]@);
        }
        match &evs[i] {
            XmlEvent::Start { name, attrs } => {
                if bytes_eq(name.as_slice(), root.as_slice()) {
                    match de_record(s, root.as_slice(), attrs, false, evs, i + 1, usize::MAX) {
                        Ok((v, _)) => {
                            return Ok(v);
                        },
                        Err(e) => {
                            return Err(e);
                        },
                    }
                }
            },
            XmlEvent::Empty { name, attrs } => {
                if bytes_eq(name.as_slice(), root.as_slice()) {
                    match de_record(s, root.as_slice(), attrs, true, evs, i + 1, usize::MAX) {
                        Ok((v, _)) => {
                            return Ok(v);
                        },
                        Err(e) => {
                            return Err(e);
                        },
                    }
                }
            },
            _ => {},
        }
        i += 1;
    }
    Err(XmlError::RootNotFound(clone_bytes(root)))
}

impl Unparsed {
    /// Reinterpret a captured subtree against a schema chosen later: the
    /// captured attributes and events are replayed through the automaton
    /// as one element's content, exactly as running [`crate::de::de_rec_m`]
    /// on the capture.
    pub fn deserialize_to(&self, s: &RecordSchema) -> (r: Result<RecordValue, XmlError>)
        requires
            wf_record(*s),
        ensures
            r matches Ok(v) ==> record_fits(*s, v@),
            match de_rec_m(
                max_fuel(),
                *s,
                Seq::empty(),
                crate::events::attrs_model(self.attrs@),
                self.data@.len() == 0,
                events_model(self.data@).push(EventM::End(Seq::empty())),
                0,
            ) {
                Ok((fms, _)) => r matches Ok(v) && v@.fields == fms,
                Err(em) => r matches Err(e) && e@ == em,
            },
    {
        let mut evs: Vec<XmlEvent> = Vec::new();
        let mut d: usize = 0;
        while d < self.data.len()
            invariant
                0 <= d <= self.data@.len(),
                evs@.len() == d,
                events_model(evs@) == events_model(self.data@).subrange(0, d as int),
            decreases self.data@.len() - d,
        {
            let ghost evs_before = evs@;
            evs.push(self.data[d].clone());
            proof {
                assert(events_model(evs@) =~= events_model(evs_before).push(
                    self.data@[d as int]@,
                ));
                assert(events_model(self.data@).subrange(0, d + 1 as int) =~= events_model(
                    self.data@,
                ).subrange(0, d as int).push(events_model(self.data@)[d as int]));
            }
            d += 1;
        }
        let was_empty = evs.len() == 0;
        let end_name: Vec<u8> = Vec::new();
        proof {
            assert(end_name@ =~= Seq::<u8>::empty());
        }
        evs.push(XmlEvent::End { name: end_name });
        proof {
            assert(events_model(self.data@).subrange(0, self.data@.len() as int) =~= events_model(
                self.data@,
            ));
            assert(evs@.last()@ == EventM::End(Seq::<u8>::empty()));
            assert(events_model(evs@) =~= events_model(self.data@).push(
                EventM::End(Seq::empty()),
            ));
        }
        let empty_tag: Vec<u8> = Vec::new();
        proof {
            assert(empty_tag@ =~= Seq::<u8>::empty());
        }
        match de_record(s, empty_tag.as_slice(), &self.attrs, was_empty, &evs, 0, usize::MAX) {
            Ok((v, _)) => Ok(v),
            Err(e) => Err(e),
        }
    }
}

} // verus!
