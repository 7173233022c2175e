//! XML escaping and serialisation of revisions, and splitting of byte
//! chunks into lines.

pub mod escape;
pub mod lines;
pub mod revision;
pub mod text;
pub mod written;
pub mod xml;
pub mod xml_serializer;
