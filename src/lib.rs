//! Parser for a line-oriented language of directed edges between named
//! entities, optionally weighted, as typed in from spreadsheets.
//!
//! Each line is blank (spaces and tabs only), a weighted edge
//! `"source" 1.234,5 "destination"`, or an unweighted edge
//! `"source" "destination"`. Names stand between double quotes and hold at
//! least one character; items are separated by spaces or tabs. A weight is
//! written with German separators (`1.234,5`) or US ones (`1,234.5`): the
//! first weight of a document fixes which, by the separator written last,
//! and every later weight is read the same way.
//!
//! `grammar` reads single lines, `number` resolves and converts weights,
//! `document` reads whole documents, and `laws` proves what holds of them.

pub mod document;
pub mod grammar;
pub mod laws;
pub mod number;
pub mod text;

pub use document::{parse, parse_document, parse_emission, Emission, LineError, ParseFailure};
pub use grammar::{parse_line, Expected, GrammarError, Line};
pub use number::{NumberFormat, Weight};
pub use text::{chars_of, string_of, string_of_range};
