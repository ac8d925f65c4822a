//! Semantic code search core: query preprocessing into term pairs, regex
//! pattern synthesis, syntactic block extraction over a parsed source tree,
//! merging of adjacent blocks, and result limiting.

pub mod language;
pub mod limits;
pub mod models;
pub mod parse;
pub mod path_resolver;
pub mod query;
pub mod test_filter;
pub mod text;
