//! The six shapes of a span, their canonical text, and the rule that turns
//! the numbers of a specifier into a span.

use vstd::prelude::*;
use crate::number::{decimal_text, push_decimal};

verus! {

/// A location within a file. Lines and columns count from one.
#[derive(Debug, Clone, Copy, PartialEq, Eq)]
pub enum Span {
    /// The whole file.
    File,
    /// One line.
    Line(usize),
    /// One character position.
    Point { line: usize, col: usize },
    /// The lines from `start` to `end`, both included.
    LineRange { start: usize, end: usize },
    /// A range of columns within one line.
    ColumnRange { line: usize, start_col: usize, end_col: usize },
    /// A range over several lines, with a column at each end.
    MultiLine { start_line: usize, start_col: usize, end_line: usize, end_col: usize },
}

/// Why a text is not a PTCR text.
#[derive(Debug, Clone, Copy, PartialEq, Eq)]
pub enum ParseError {
    /// A header whose specifier gives a column at one end and none at the other.
    MalformedSpan,
    /// A header with a number that does not fit the machine word.
    NumericOverflow,
}

impl ParseError {
    /// The words of the error message.
    pub open spec fn message_text(self) -> Seq<char> {
        match self {
            ParseError::MalformedSpan => "invalid span"@,
            ParseError::NumericOverflow => "number too large to fit in target type"@,
        }
    }

    /// A message for a reader.
    pub fn message(&self) -> (out: String)
        ensures
            out@ == self.message_text(),
    {
        match self {
            ParseError::MalformedSpan => "invalid span".to_owned(),
            ParseError::NumericOverflow => "number too large to fit in target type".to_owned(),
        }
    }
}

/// One end of a span as a specifier writes it: a line, and perhaps a column.
pub type End = (usize, Option<usize>);

/// The span that the numbers of a specifier stand for: `start_line` and
/// `start_col` are its first end, `end` is its second end where it has one.
/// Two ends on one line give a range of columns; a column at one end only
/// gives no span.
pub open spec fn span_of_groups(start_line: usize, start_col: Option<usize>, end: Option<End>) -> Result<
    Span,
    ParseError,
> {
    match (start_col, end) {
        (None, None) => Ok(Span::Line(start_line)),
        (Some(col), None) => Ok(Span::Point { line: start_line, col }),
        (None, Some((end_line, None))) => Ok(Span::LineRange { start: start_line, end: end_line }),
        (Some(start_col), Some((end_line, Some(end_col)))) => if start_line == end_line {
            Ok(Span::ColumnRange { line: start_line, start_col, end_col })
        } else {
            Ok(Span::MultiLine { start_line, start_col, end_line, end_col })
        },
        _ => Err(ParseError::MalformedSpan),
    }
}

/// The span of a specifier's numbers.
pub fn span_from_groups(start_line: usize, start_col: Option<usize>, end: Option<End>) -> (r: Result<
    Span,
    ParseError,
>)
    ensures
        r == span_of_groups(start_line, start_col, end),
        match r {
            Ok(span) => is_canonical(span),
            Err(e) => e == ParseError::MalformedSpan,
        },
{
    match end {
        None => match start_col {
            None => Ok(Span::Line(start_line)),
            Some(col) => Ok(Span::Point { line: start_line, col }),
        },
        Some((end_line, end_col)) => match (start_col, end_col) {
            (None, None) => Ok(Span::LineRange { start: start_line, end: end_line }),
            (Some(start_col), Some(end_col)) => if start_line == end_line {
                Ok(Span::ColumnRange { line: start_line, start_col, end_col })
            } else {
                Ok(Span::MultiLine { start_line, start_col, end_line, end_col })
            },
            _ => Err(ParseError::MalformedSpan),
        },
    }
}

/// The text `line.col`.
pub open spec fn point_text(line: usize, col: usize) -> Seq<char> {
    decimal_text(line as nat) + seq!['.'] + decimal_text(col as nat)
}

/// The canonical specifier of a span.
pub open spec fn span_text(span: Span) -> Seq<char> {
    match span {
        Span::File => seq!['*'],
        Span::Line(l) => decimal_text(l as nat),
        Span::Point { line, col } => point_text(line, col),
        Span::LineRange { start, end } => decimal_text(start as nat) + seq!['-'] + decimal_text(
            end as nat,
        ),
        Span::ColumnRange { line, start_col, end_col } => point_text(line, start_col) + seq!['-']
            + point_text(line, end_col),
        Span::MultiLine { start_line, start_col, end_line, end_col } => point_text(
            start_line,
            start_col,
        ) + seq!['-'] + point_text(end_line, end_col),
    }
}

/// Whether parsing the canonical specifier of `span` gives `span` back: a
/// `MultiLine` whose ends lie on one line is written like a `ColumnRange`.
pub open spec fn is_canonical(span: Span) -> bool {
    match span {
        Span::MultiLine { start_line, end_line, .. } => start_line != end_line,
        _ => true,
    }
}

fn push_point(out: &mut String, line: usize, col: usize)
    ensures
        final(out)@ == old(out)@ + point_text(line, col),
{
    push_decimal(out, line);
    out.push('.');
    push_decimal(out, col);
    proof {
        assert(out@ =~= old(out)@ + point_text(line, col));
    }
}

/// Appends the canonical specifier of `span` to `out`.
pub fn push_span(out: &mut String, span: &Span)
    ensures
        final(out)@ == old(out)@ + span_text(*span),
{
    match *span {
        Span::File => {
            out.push('*');
        },
        Span::Line(l) => {
            push_decimal(out, l);
        },
        Span::Point { line, col } => {
            push_point(out, line, col);
        },
        Span::LineRange { start, end } => {
            push_decimal(out, start);
            out.push('-');
            push_decimal(out, end);
        },
        Span::ColumnRange { line, start_col, end_col } => {
            push_point(out, line, start_col);
            out.push('-');
            push_point(out, line, end_col);
        },
        Span::MultiLine { start_line, start_col, end_line, end_col } => {
            push_point(out, start_line, start_col);
            out.push('-');
            push_point(out, end_line, end_col);
        },
    }
    proof {
        assert(out@ =~= old(out)@ + span_text(*span));
    }
}

/// The canonical specifier of a span.
pub fn span_to_string(span: &Span) -> (out: String)
    ensures
        out@ == span_text(*span),
{
    let mut out = String::new();
    push_span(&mut out, span);
    out
}

/// The first and last line that a span covers in a file of `max` lines, the
/// last one held down to `max`.
pub open spec fn bounds_of(span: Span, max: usize) -> (usize, usize) {
    let (start, end) = match span {
        Span::File => (1usize, max),
        Span::Line(l) => (l, l),
        Span::Point { line, .. } => (line, line),
        Span::LineRange { start, end } => (start, end),
        Span::ColumnRange { line, .. } => (line, line),
        Span::MultiLine { start_line, end_line, .. } => (start_line, end_line),
    };
    (start, if end > max { max } else { end })
}

/// The lines of a span, as a pair of line numbers, in a file of `max` lines.
pub fn line_bounds(span: &Span, max: usize) -> (r: (usize, usize))
    ensures
        r == bounds_of(*span, max),
        r.1 <= max,
{
    let (start, end) = match *span {
        Span::File => (1, max),
        Span::Line(l) => (l, l),
        Span::Point { line, .. } => (line, line),
        Span::LineRange { start, end } => (start, end),
        Span::ColumnRange { line, .. } => (line, line),
        Span::MultiLine { start_line, end_line, .. } => (start_line, end_line),
    };
    if end > max {
        (start, max)
    } else {
        (start, end)
    }
}

} // verus!
