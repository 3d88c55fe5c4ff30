#![verifier::loop_isolation(false)]
//! An XML (de)serialization engine driven by an explicit, immutable schema.
//!
//! A record type is described once as a [`schema::RecordSchema`]: an ordered
//! list of fields, each with a role (attribute, named child, text content,
//! self-closing flag, untagged union or untagged struct), an arity and an
//! optional default. The engine interprets that description in both
//! directions: a serialization planner decides what to emit, in what order,
//! and when an element may be self-closed, and a single-pass deserialization
//! automaton rebuilds a typed value from an XML event stream.
//!
//! The low-level XML tokenizer and writer are `quick-xml`; everything the
//! engine decides on top of the raw events is verified.

pub mod api;
pub mod bytes;
pub mod de;
pub mod eq;
pub mod errors;
pub mod events;
pub mod laws;
pub mod scalars;
pub mod schema;
pub mod ser;
pub mod validate;
pub mod values;
pub mod xml_io;

pub use api::deserialize_from_events;
pub use api::xml_deserialize_from_str;
pub use api::xml_serialize;
pub use api::xml_serialize_with_decl;
pub use errors::XmlError;
pub use scalars::XmlValue;
pub use schema::EleType;
pub use validate::validate;
pub use values::Unparsed;

