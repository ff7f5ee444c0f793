//! Compiles a parsed query tree of field comparisons, boolean combinators and
//! cross-index links into the JSON query language of a document search
//! backend, joining linked entities through nested "subselect" clauses.

pub mod ast;
pub mod dsl;
pub mod error;
pub mod json;
pub mod lemmas;
pub mod path_finder;
pub mod term;
