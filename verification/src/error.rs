//! Errors reported when a document cannot be parsed into a tree.

use vstd::prelude::*;

verus! {

/// Spec-level image of an [`XmlError`].
#[verifier::ext_equal]
pub enum ErrV {
    /// An end tag did not match the name of the innermost open element.
    Mismatch { expected: Seq<char>, found: Seq<char> },
    /// The input ended while elements were still open.
    UnexpectedEof,
    /// The input held no start or empty tag at all, so no root exists.
    NoRoot,
    /// The tokenizer could not make sense of the input: broken tag or
    /// attribute syntax, or a reference it cannot resolve; the payload
    /// is its message.
    Syntax(Seq<char>),
}

/// A structural or lexical parse error.
#[derive(Debug)]
pub enum XmlError {
    /// An end tag did not match the name of the innermost open element.
    Mismatch {
        /// Name of the element that was open.
        expected: String,
        /// Name carried by the offending end tag.
        found: String,
    },
    /// The input ended while elements were still open.
    UnexpectedEof,
    /// The input held no start or empty tag at all, so no root exists.
    NoRoot,
    /// The tokenizer could not make sense of the input: broken tag or
    /// attribute syntax, or a reference it cannot resolve; the payload
    /// is its message.
    Syntax(String),
}

impl View for XmlError {
    type V = ErrV;

    open spec fn view(&self) -> ErrV {
        match self {
            XmlError::Mismatch { expected, found } => ErrV::Mismatch {
                expected: expected@,
                found: found@,
            },
            XmlError::UnexpectedEof => ErrV::UnexpectedEof,
            XmlError::NoRoot => ErrV::NoRoot,
            XmlError::Syntax(m) => ErrV::Syntax(m@),
        }
    }
}

} // verus!
