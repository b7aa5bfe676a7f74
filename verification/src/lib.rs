//! A minimal in-memory XML document model: parse an XML fragment into a
//! tree of elements and text nodes, and serialize that tree back into XML
//! text, canonicalizing childless elements to self-closing form.

pub mod builder;
pub mod element;
pub mod error;
pub mod events;
pub mod laws;
pub mod node;
pub mod writer;
