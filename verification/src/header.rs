//! The header line `PATH:SPEC`: its grammar, and the span that a specifier
//! stands for.

use vstd::prelude::*;
use vstd::slice::slice_subrange;
use crate::chars::{find, first_index, is_space, lemma_first_index, space, string_of, to_chars};
use crate::number::{decimal_value, is_digits, all_digits, parse_decimal};
use crate::span::{span_from_groups, span_of_groups, End, ParseError, Span};

verus! {

/// One end of a specifier as it is written: the digits of the line, and the
/// digits of the column where a `.` follows the line.
pub struct EndText {
    pub line: Seq<char>,
    pub col: Option<Seq<char>>,
}

/// A specifier as it is written: `*`, one end, or two ends with `-` between.
pub enum SpecText {
    Whole,
    One(EndText),
    Two(EndText, EndText),
}

/// A header line as it is written.
pub struct HeaderText {
    pub path: Seq<char>,
    pub spec: SpecText,
}

/// A path: at least one character, none of them white space or `:`.
pub open spec fn is_path(s: Seq<char>) -> bool {
    s.len() > 0 && forall|i: int| 0 <= i < s.len() ==> !is_space(#[trigger] s[i]) && s[i] != ':'
}

/// Reads `NUM` or `NUM.NUM`.
pub open spec fn end_of(s: Seq<char>) -> Option<EndText> {
    let i = first_index(s, '.');
    if i == s.len() {
        if is_digits(s) {
            Some(EndText { line: s, col: None })
        } else {
            None
        }
    } else {
        let line = s.take(i);
        let col = s.skip(i + 1);
        if is_digits(line) && is_digits(col) {
            Some(EndText { line, col: Some(col) })
        } else {
            None
        }
    }
}

/// Reads a specifier: `*`, or one end, or two ends with `-` between them.
pub open spec fn spec_of(s: Seq<char>) -> Option<SpecText> {
    if s == seq!['*'] {
        Some(SpecText::Whole)
    } else {
        let i = first_index(s, '-');
        if i == s.len() {
            match end_of(s) {
                Some(a) => Some(SpecText::One(a)),
                None => None,
            }
        } else {
            match (end_of(s.take(i)), end_of(s.skip(i + 1))) {
                (Some(a), Some(b)) => Some(SpecText::Two(a, b)),
                _ => None,
            }
        }
    }
}

/// Reads a header line: a path, `:`, and a specifier that runs to the end of
/// the line. A line of any other form is no header.
pub open spec fn header_of(line: Seq<char>) -> Option<HeaderText> {
    let i = first_index(line, ':');
    if i == line.len() {
        None
    } else {
        let path = line.take(i);
        if is_path(path) {
            match spec_of(line.skip(i + 1)) {
                Some(spec) => Some(HeaderText { path, spec }),
                None => None,
            }
        } else {
            None
        }
    }
}

/// Whether the number that a digit run writes fits the machine word.
pub open spec fn fits(s: Seq<char>) -> bool {
    decimal_value(s) <= usize::MAX
}

/// Whether both numbers of an end fit the machine word.
pub open spec fn end_fits(e: EndText) -> bool {
    fits(e.line) && match e.col {
        Some(c) => fits(c),
        None => true,
    }
}

/// The numbers of an end.
pub open spec fn end_value(e: EndText) -> End {
    (
        decimal_value(e.line) as usize,
        match e.col {
            Some(c) => Some(decimal_value(c) as usize),
            None => None,
        },
    )
}

/// The span of a specifier. A number that does not fit is reported before
/// the shape of the specifier is judged.
pub open spec fn span_of(t: SpecText) -> Result<Span, ParseError> {
    match t {
        SpecText::Whole => Ok(Span::File),
        SpecText::One(a) => if end_fits(a) {
            span_of_groups(end_value(a).0, end_value(a).1, None)
        } else {
            Err(ParseError::NumericOverflow)
        },
        SpecText::Two(a, b) => if end_fits(a) && end_fits(b) {
            span_of_groups(end_value(a).0, end_value(a).1, Some(end_value(b)))
        } else {
            Err(ParseError::NumericOverflow)
        },
    }
}

/// What a line says: `Ok(None)` where it is no header, the path and span of
/// a header, or the error of a header whose specifier stands for no span.
pub open spec fn read_header(line: Seq<char>) -> Result<Option<(Seq<char>, Span)>, ParseError> {
    match header_of(line) {
        None => Ok(None),
        Some(h) => match span_of(h.spec) {
            Ok(span) => Ok(Some((h.path, span))),
            Err(e) => Err(e),
        },
    }
}

/// Whether a line is a header line, whatever its specifier stands for.
pub open spec fn is_header(line: Seq<char>) -> bool {
    header_of(line) is Some
}

/// What was read from a line, as a mathematical value.
pub open spec fn header_view(r: Result<Option<(String, Span)>, ParseError>) -> Result<
    Option<(Seq<char>, Span)>,
    ParseError,
> {
    match r {
        Ok(Some((path, span))) => Ok(Some((path@, span))),
        Ok(None) => Ok(None),
        Err(e) => Err(e),
    }
}

/// Whether `s` is a path.
pub fn path_chars(s: &[char]) -> (b: bool)
    ensures
        b == is_path(s@),
{
    if s.len() == 0 {
        return false;
    }
    let mut i: usize = 0;
    while i < s.len()
        invariant
            i <= s.len(),
            forall|j: int| 0 <= j < i ==> !is_space(#[trigger] s@[j]) && s@[j] != ':',
        decreases s.len() - i,
    {
        if space(s[i]) || s[i] == ':' {
            return false;
        }
        i += 1;
    }
    true
}

/// Splits `NUM` or `NUM.NUM` into its digit runs.
fn match_end<'a>(s: &'a [char]) -> (r: Option<(&'a [char], Option<&'a [char]>)>)
    ensures
        match r {
            None => end_of(s@) is None,
            Some((line, None)) => end_of(s@) == Some(EndText { line: line@, col: None }),
            Some((line, Some(col))) => end_of(s@) == Some(
                EndText { line: line@, col: Some(col@) },
            ),
        },
{
    proof {
        lemma_first_index(s@, '.');
    }
    match find(s, '.') {
        None => {
            if all_digits(s) {
                Some((s, None))
            } else {
                None
            }
        },
        Some(i) => {
            let len = s.len();
            let line = slice_subrange(s, 0, i);
            let col = slice_subrange(s, i + 1, len);
            if all_digits(line) && all_digits(col) {
                Some((line, Some(col)))
            } else {
                None
            }
        },
    }
}

/// The numbers of an end whose digit runs are given; none where one of them
/// does not fit.
fn decode_end(line: &[char], col: Option<&[char]>) -> (r: Option<End>)
    requires
        is_digits(line@),
        match col {
            Some(c) => is_digits(c@),
            None => true,
        },
    ensures
        ({
            let e = EndText {
                line: line@,
                col: match col {
                    Some(c) => Some(c@),
                    None => None,
                },
            };
            r == if end_fits(e) {
                Some(end_value(e))
            } else {
                None
            }
        }),
{
    let l = match parse_decimal(line) {
        Some(l) => l,
        None => {
            return None;
        },
    };
    match col {
        None => Some((l, None)),
        Some(c) => match parse_decimal(c) {
            Some(c) => Some((l, Some(c))),
            None => None,
        },
    }
}

/// Reads one end: its numbers, or the fact that one of them does not fit.
fn read_end(s: &[char]) -> (r: Option<Option<End>>)
    ensures
        r == match end_of(s@) {
            None => None,
            Some(e) => Some(
                if end_fits(e) {
                    Some(end_value(e))
                } else {
                    None
                },
            ),
        },
{
    match match_end(s) {
        None => None,
        Some((line, col)) => Some(decode_end(line, col)),
    }
}

/// Reads a specifier: none where `s` is no specifier, else its span or the
/// reason why it stands for none.
pub fn parse_spec_chars(s: &[char]) -> (r: Option<Result<Span, ParseError>>)
    ensures
        r == match spec_of(s@) {
            None => None,
            Some(t) => Some(span_of(t)),
        },
{
    if s.len() == 1 && s[0] == '*' {
        assert(s@ =~= seq!['*']);
        return Some(Ok(Span::File));
    }
    assert(s@ != seq!['*']) by {
        if s@ == seq!['*'] {
            assert(seq!['*'].len() == 1);
            assert(seq!['*'][0] == '*');
        }
    }
    proof {
        lemma_first_index(s@, '-');
    }
    match find(s, '-') {
        None => match read_end(s) {
            None => None,
            Some(None) => Some(Err(ParseError::NumericOverflow)),
            Some(Some((line, col))) => Some(span_from_groups(line, col, None)),
        },
        Some(i) => {
            let len = s.len();
            let first = read_end(slice_subrange(s, 0, i));
            let second = read_end(slice_subrange(s, i + 1, len));
            match (first, second) {
                (Some(Some((line, col))), Some(Some(end))) => Some(
                    span_from_groups(line, col, Some(end)),
                ),
                (Some(_), Some(_)) => Some(Err(ParseError::NumericOverflow)),
                _ => None,
            }
        },
    }
}

/// Reads a line given by its characters.
pub fn parse_header_chars(line: &[char]) -> (r: Result<Option<(String, Span)>, ParseError>)
    ensures
        header_view(r) == read_header(line@),
{
    proof {
        lemma_first_index(line@, ':');
    }
    match find(line, ':') {
        None => Ok(None),
        Some(i) => {
            let len = line.len();
            let path = slice_subrange(line, 0, i);
            if !path_chars(path) {
                return Ok(None);
            }
            match parse_spec_chars(slice_subrange(line, i + 1, len)) {
                None => Ok(None),
                Some(Err(e)) => Err(e),
                Some(Ok(span)) => Ok(Some((string_of(path), span))),
            }
        },
    }
}

/// Reads a line: `Ok(None)` where it is no header, the path and span of a
/// header, or the error of a header whose specifier stands for no span.
pub fn parse_header(line: &str) -> (r: Result<Option<(String, Span)>, ParseError>)
    ensures
        header_view(r) == read_header(line@),
{
    let chars = to_chars(line);
    parse_header_chars(chars.as_slice())
}

} // verus!
