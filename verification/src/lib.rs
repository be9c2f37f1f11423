//! PTCR: a line-oriented text format that attaches free-text annotations to
//! locations in source files.
//!
//! A PTCR text is a run of records. Each record opens with a header line
//! `PATH:SPEC`, where `SPEC` is a compact span specifier, and is followed by
//! the lines of its body. This crate holds the span grammar, the parser, the
//! serializer and the renderer that joins a record with the lines of the
//! file it points into. All of them work on text in memory.

pub mod chars;
pub mod grammar;
pub mod header;
pub mod number;
pub mod parser;
pub mod record;
pub mod render;
pub mod round_trip;
pub mod serializer;
pub mod span;

pub use crate::chars::{string_of, to_chars};
pub use crate::number::{decimal_string, parse_decimal};
pub use crate::span::{line_bounds, span_from_groups, span_to_string, ParseError, Span};
pub use crate::header::parse_header;
pub use crate::parser::{parse, text_lines};
pub use crate::record::Record;
pub use crate::serializer::serialize;
pub use crate::render::{context_window, render_record};
