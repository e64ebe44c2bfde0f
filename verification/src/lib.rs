//! Pointer-addressed access into JSON-like documents.
//!
//! The crate models a JSON document as the [`value::Value`] sum type and
//! offers RFC 6901 pointer resolution (module [`resolve`]), pointer-guided
//! mutation with auto-vivification (module [`mutate`]), a type classifier
//! and a structural comparator, each verified against a mathematical model
//! of the document ([`value::Jv`]).

pub mod compare;
pub mod mutate;
pub mod num;
pub mod pointer;
pub mod resolve;
pub mod value;
