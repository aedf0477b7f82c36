//! Parser for the LCOV tracefile format.
//!
//! An LCOV report is a sequence of lines, each carrying one directive such as
//! `TN:<name>`, `SF:<path>`, `DA:<line>,<count>[,<checksum>]` or the bare word
//! `end_of_record`.  This crate decodes such reports line by line: the
//! decoder turns the bytes of one line into an [`record::LCOVRecord`], and
//! the parser drives the decoder over a whole byte stream, counting lines and
//! reporting malformed ones without stopping.

pub mod combinator;
pub mod parser;
pub mod record;
pub mod text;

pub use combinator::branch::branch_record;
pub use combinator::line::lines_record;
pub use parser::{each_records, parse_all, parse_record, LCOVParser};
pub use parser::{ErrorModel, IoErrorKind, ParsedResult, RecordParsedError};
pub use record::{format_record, LCOVRecord, RecordModel};
