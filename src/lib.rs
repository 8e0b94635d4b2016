//! Strongly typed, text-based records for declarative configuration.
//!
//! Type definitions (`label: kind kind ...`) declare the ordered field kinds of a
//! record label; record lines (`label field field ...`) give typed entries; the
//! entries of one label are indexed field by field for equality and wildcard
//! lookups.
mod document;
mod error;
mod field;
mod filter;
mod laws;
mod lexer;
mod numeric;
mod options;
mod order;
mod pass;
mod record;
mod recordset;
mod schema;
mod signature;
mod text;
mod tree;

pub use document::Document;
pub use error::{Error, ParseError};
pub use field::Field;
pub use filter::Filter;
pub use numeric::{read_integer, IntError};
pub use options::Options;
pub use pass::{Pass, Statement};
pub use record::Record;
pub use recordset::RecordSet;
pub use schema::{Schema, SchemaOne};
pub use signature::{FloatSyntax, Signature};
