//! Graph export formats.

pub mod cypher;
pub mod jsonld;
