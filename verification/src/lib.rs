//! Schema extraction from class-with-typed-fields source text.
//!
//! The library scans a document line by line, locates the first class
//! declaration line, harvests property declaration lines from the remainder,
//! and renders the result as deterministic JSON text whose property keys are
//! alphabetized.

pub mod json;
pub mod parser;
pub mod pattern;
pub mod record;
pub mod text;

pub use parser::{TypescriptSchemaParser, UnableToParse};
