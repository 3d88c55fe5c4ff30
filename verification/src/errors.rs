//! The typed failures of deserialization. Each kind is distinct and
//! carries what the caller needs to report it; none is ever coerced into
//! another.

use vstd::prelude::*;

verus! {

/// Why a deserialization call failed.
#[derive(Debug)]
pub enum XmlError {
    /// The tokenizer rejected the input text.
    Malformed,
    /// End of stream before the expected root tag; carries the tag.
    RootNotFound(Vec<u8>),
    /// The scalar codec rejected a value; carries the field or attribute
    /// name and the raw text.
    ValueError { field: Vec<u8>, raw: Vec<u8> },
    /// An undeclared attribute or child under the `deny_unknown` policy;
    /// carries the offending name.
    UnknownField(Vec<u8>),
    /// A required field never received a value; carries the field name.
    MissingField(Vec<u8>),
    /// End of stream before the matching end tag.
    PrematureEnd,
    /// The recursion ceiling was reached; the engine runs with a ceiling
    /// far beyond any document that fits in memory, so this marks a
    /// pathological input, not a working one.
    DepthLimit,
}

/// Model of an error, with names and texts as sequences.
pub enum XmlErrorM {
    Malformed,
    RootNotFound(Seq<u8>),
    ValueError { field: Seq<u8>, raw: Seq<u8> },
    UnknownField(Seq<u8>),
    MissingField(Seq<u8>),
    PrematureEnd,
    DepthLimit,
}

impl View for XmlError {
    type V = XmlErrorM;

    open spec fn view(&self) -> XmlErrorM {
        match self {
            XmlError::Malformed => XmlErrorM::Malformed,
            XmlError::RootNotFound(t) => XmlErrorM::RootNotFound(t@),
            XmlError::ValueError { field, raw } => XmlErrorM::ValueError {
                field: field@,
                raw: raw@,
            },
            XmlError::UnknownField(t) => XmlErrorM::UnknownField(t@),
            XmlError::MissingField(t) => XmlErrorM::MissingField(t@),
            XmlError::PrematureEnd => XmlErrorM::PrematureEnd,
            XmlError::DepthLimit => XmlErrorM::DepthLimit,
        }
    }
}

impl XmlError {
    /// A short description, one word per kind, for reporting.
    pub fn kind_text(&self) -> (r: &'static str)
    {
        match self {
            XmlError::Malformed => "malformed",
            XmlError::RootNotFound(_) => "root-not-found",
            XmlError::ValueError { .. } => "value-conversion",
            XmlError::UnknownField(_) => "unknown-field",
            XmlError::MissingField(_) => "missing-required-field",
            XmlError::PrematureEnd => "premature-end-of-stream",
            XmlError::DepthLimit => "depth-limit",
        }
    }
}

} // verus!
