//! A canonical, deterministic OWL/XML serializer for an in-memory ontology
//! model: interned IRI handles, an ontology identity with optional primary and
//! version identifiers, and a set of declared classes, emitted as a
//! well-formed, indented document whose class declarations appear in ascending
//! lexicographic order of their resolved IRIs.

pub mod escape;
pub mod generate;
pub mod laws;
pub mod literals;
pub mod model;
pub mod xml;
pub mod order;
pub mod writer;
