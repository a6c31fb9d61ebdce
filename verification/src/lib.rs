//! Readonly context and immutable observation substrate, with the readers that
//! derive spans, inspections and queries from its record stream.
pub mod text;
pub mod table;
pub mod error;
pub mod context;
pub mod atom;
pub mod derive;
pub mod span;
pub mod input;
pub mod query;
pub mod inspect;
pub mod options;
pub mod collector;
pub mod generator;
pub mod entropy;
pub mod reporter;
pub mod hook;
pub mod engine;
