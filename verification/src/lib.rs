//! Parsing, rendering and modelling of table names in a query language.
//!
//! A `Table` is the canonical in-memory name of a record collection; a
//! `Tables` value is an ordered, non-empty list of such names as they appear
//! in comma-separated source syntax.

pub mod err;
pub mod id;
pub mod ident;
pub mod sep;
pub mod table;

pub use err::{IResult, ParseError};
pub use id::{Id, Thing};
pub use ident::Ident;
pub use table::{table, tables, Table, Tables};
