//! The header grammar said by its forms, and the proof that the reader of
//! header lines accepts these forms and no others.

use vstd::prelude::*;
use crate::chars::{
    first_index, is_digit, lemma_first_index, lemma_first_index_absent, lemma_first_index_between,
};
use crate::header::{
    end_fits, end_of, end_value, fits, is_header, is_path, read_header, span_of, spec_of,
};
use crate::number::{decimal_value, is_digits};
use crate::span::{span_of_groups, ParseError, Span};

verus! {

/// `NUM` or `NUM.NUM`.
pub open spec fn has_end_form(s: Seq<char>) -> bool {
    is_digits(s) || exists|a: Seq<char>, b: Seq<char>|
        is_digits(a) && is_digits(b) && s == a + seq!['.'] + b
}

/// `*`, or one end, or two ends with `-` between them.
pub open spec fn has_spec_form(s: Seq<char>) -> bool {
    s == seq!['*'] || has_end_form(s) || exists|a: Seq<char>, b: Seq<char>|
        has_end_form(a) && has_end_form(b) && s == a + seq!['-'] + b
}

/// `PATH:SPEC`.
pub open spec fn has_header_form(line: Seq<char>) -> bool {
    exists|path: Seq<char>, spec: Seq<char>|
        is_path(path) && has_spec_form(spec) && line == path + seq![':'] + spec
}

/// An end is written with digits and `.` only, and is not empty.
pub proof fn lemma_end_form_chars(s: Seq<char>)
    requires
        has_end_form(s),
    ensures
        s.len() > 0,
        forall|i: int| 0 <= i < s.len() ==> is_digit(#[trigger] s[i]) || s[i] == '.',
{
    if !is_digits(s) {
        let (a, b) = choose|a: Seq<char>, b: Seq<char>|
            is_digits(a) && is_digits(b) && s == a + seq!['.'] + b;
        assert forall|i: int| 0 <= i < s.len() implies is_digit(#[trigger] s[i]) || s[i]
            == '.' by {
            if i < a.len() {
                assert(s[i] == a[i]);
            } else if i > a.len() {
                assert(s[i] == b[i - a.len() - 1]);
            }
        }
    }
}

/// The reader of ends accepts `NUM` and `NUM.NUM`, and nothing else.
pub proof fn lemma_end_form(s: Seq<char>)
    ensures
        end_of(s) is Some <==> has_end_form(s),
{
    let i = first_index(s, '.');
    lemma_first_index(s, '.');
    if end_of(s) is Some {
        if i < s.len() {
            let a = s.take(i);
            let b = s.skip(i + 1);
            assert(s =~= a + seq!['.'] + b);
            assert(is_digits(a) && is_digits(b) && s == a + seq!['.'] + b);
        }
    }
    if has_end_form(s) {
        if is_digits(s) {
            lemma_first_index_absent(s, '.');
        } else {
            let (a, b) = choose|a: Seq<char>, b: Seq<char>|
                is_digits(a) && is_digits(b) && s == a + seq!['.'] + b;
            lemma_first_index_between(a, '.', b);
        }
    }
}

/// The reader of specifiers accepts `*`, one end, and two ends with `-`
/// between them, and nothing else.
pub proof fn lemma_spec_form(s: Seq<char>)
    ensures
        spec_of(s) is Some <==> has_spec_form(s),
{
    let i = first_index(s, '-');
    lemma_first_index(s, '-');
    if spec_of(s) is Some && s != seq!['*'] {
        if i == s.len() {
            lemma_end_form(s);
        } else {
            let a = s.take(i);
            let b = s.skip(i + 1);
            lemma_end_form(a);
            lemma_end_form(b);
            assert(s =~= a + seq!['-'] + b);
            assert(has_end_form(a) && has_end_form(b) && s == a + seq!['-'] + b);
        }
    }
    if has_spec_form(s) && s != seq!['*'] {
        if has_end_form(s) {
            lemma_end_form_chars(s);
            lemma_first_index_absent(s, '-');
            lemma_end_form(s);
        } else {
            let (a, b) = choose|a: Seq<char>, b: Seq<char>|
                has_end_form(a) && has_end_form(b) && s == a + seq!['-'] + b;
            lemma_end_form_chars(a);
            lemma_first_index_between(a, '-', b);
            lemma_end_form(a);
            lemma_end_form(b);
        }
    }
}

/// Header recognition is exact: a line is read as a header if and only if it
/// is a path, a colon and a specifier.
pub proof fn lemma_header_form(line: Seq<char>)
    ensures
        is_header(line) <==> has_header_form(line),
{
    let i = first_index(line, ':');
    lemma_first_index(line, ':');
    if is_header(line) {
        let path = line.take(i);
        let spec = line.skip(i + 1);
        lemma_spec_form(spec);
        assert(line =~= path + seq![':'] + spec);
        assert(is_path(path) && has_spec_form(spec) && line == path + seq![':'] + spec);
    }
    if has_header_form(line) {
        let (path, spec) = choose|path: Seq<char>, spec: Seq<char>|
            is_path(path) && has_spec_form(spec) && line == path + seq![':'] + spec;
        lemma_first_index_between(path, ':', spec);
        lemma_spec_form(spec);
    }
}

/// `s` is a digit run that writes `n`.
pub open spec fn writes(s: Seq<char>, n: usize) -> bool {
    is_digits(s) && decimal_value(s) == n
}

/// `s` is `NUM.NUM` and writes `line` and `col`.
pub open spec fn writes_point(s: Seq<char>, line: usize, col: usize) -> bool {
    exists|a: Seq<char>, b: Seq<char>| writes(a, line) && writes(b, col) && s == a + seq!['.'] + b
}

/// `s` is `a-b`, where `a` writes the point `(l1, c1)` and `b` writes the
/// point `(l2, c2)`.
pub open spec fn writes_points(s: Seq<char>, l1: usize, c1: usize, l2: usize, c2: usize) -> bool {
    exists|a: Seq<char>, b: Seq<char>|
        writes_point(a, l1, c1) && writes_point(b, l2, c2) && s == a + seq!['-'] + b
}

/// `s` writes `span` in one of the six accepted shapes.
pub open spec fn writes_span(s: Seq<char>, span: Span) -> bool {
    match span {
        Span::File => s == seq!['*'],
        Span::Line(l) => writes(s, l),
        Span::Point { line, col } => writes_point(s, line, col),
        Span::LineRange { start, end } => exists|a: Seq<char>, b: Seq<char>|
            writes(a, start) && writes(b, end) && s == a + seq!['-'] + b,
        Span::ColumnRange { line, start_col, end_col } => writes_points(
            s,
            line,
            start_col,
            line,
            end_col,
        ),
        Span::MultiLine { start_line, start_col, end_line, end_col } => start_line != end_line
            && writes_points(s, start_line, start_col, end_line, end_col),
    }
}

/// `s` reads as an end whose numbers fit and are `line` and `col`.
pub open spec fn end_reads(s: Seq<char>, line: usize, col: Option<usize>) -> bool {
    match end_of(s) {
        Some(e) => end_fits(e) && end_value(e) == (line, col),
        None => false,
    }
}

/// An end without a column is a digit run.
pub proof fn lemma_end_reads_number(s: Seq<char>, n: usize)
    ensures
        end_reads(s, n, None) <==> writes(s, n),
{
    lemma_first_index(s, '.');
    if writes(s, n) {
        lemma_first_index_absent(s, '.');
    }
}

/// An end with a column is two digit runs with `.` between them.
pub proof fn lemma_end_reads_point(s: Seq<char>, line: usize, col: usize)
    ensures
        end_reads(s, line, Some(col)) <==> writes_point(s, line, col),
{
    let i = first_index(s, '.');
    lemma_first_index(s, '.');
    if end_reads(s, line, Some(col)) {
        let a = s.take(i);
        let b = s.skip(i + 1);
        assert(s =~= a + seq!['.'] + b);
        assert(writes(a, line) && writes(b, col) && s == a + seq!['.'] + b);
    }
    if writes_point(s, line, col) {
        let (a, b) = choose|a: Seq<char>, b: Seq<char>|
            writes(a, line) && writes(b, col) && s == a + seq!['.'] + b;
        lemma_first_index_between(a, '.', b);
    }
}

/// A point is an end.
pub proof fn lemma_point_is_end(s: Seq<char>, line: usize, col: usize)
    requires
        writes_point(s, line, col),
    ensures
        has_end_form(s),
{
    let (a, b) = choose|a: Seq<char>, b: Seq<char>|
        writes(a, line) && writes(b, col) && s == a + seq!['.'] + b;
    assert(is_digits(a) && is_digits(b) && s == a + seq!['.'] + b);
}

/// `s` reads as a specifier that stands for `span`.
pub open spec fn spec_reads(s: Seq<char>, span: Span) -> bool {
    match spec_of(s) {
        Some(t) => span_of(t) == Ok::<Span, ParseError>(span),
        None => false,
    }
}

/// A specifier stands for a span if and only if it writes the span in one
/// of the six accepted shapes.
pub proof fn lemma_spec_accepted(s: Seq<char>, span: Span)
    ensures
        spec_reads(s, span) <==> writes_span(s, span),
{
    let i = first_index(s, '-');
    lemma_first_index(s, '-');
    if spec_reads(s, span) && s != seq!['*'] {
        if i == s.len() {
            match span {
                Span::Line(l) => {
                    lemma_end_reads_number(s, l);
                },
                Span::Point { line, col } => {
                    lemma_end_reads_point(s, line, col);
                },
                _ => {},
            }
        } else {
            let a = s.take(i);
            let b = s.skip(i + 1);
            assert(s =~= a + seq!['-'] + b);
            match span {
                Span::LineRange { start, end } => {
                    lemma_end_reads_number(a, start);
                    lemma_end_reads_number(b, end);
                    assert(writes(a, start) && writes(b, end) && s == a + seq!['-'] + b);
                },
                Span::ColumnRange { line, start_col, end_col } => {
                    lemma_end_reads_point(a, line, start_col);
                    lemma_end_reads_point(b, line, end_col);
                    assert(writes_point(a, line, start_col) && writes_point(b, line, end_col) && s
                        == a + seq!['-'] + b);
                },
                Span::MultiLine { start_line, start_col, end_line, end_col } => {
                    lemma_end_reads_point(a, start_line, start_col);
                    lemma_end_reads_point(b, end_line, end_col);
                    assert(writes_point(a, start_line, start_col) && writes_point(
                        b,
                        end_line,
                        end_col,
                    ) && s == a + seq!['-'] + b);
                },
                _ => {},
            }
        }
    }
    if writes_span(s, span) {
        match span {
            Span::File => {},
            Span::Line(l) => {
                assert(s[0] != '*');
                lemma_first_index_absent(s, '-');
                lemma_end_reads_number(s, l);
            },
            Span::Point { line, col } => {
                lemma_point_is_end(s, line, col);
                lemma_end_form_chars(s);
                assert(s[0] != '*');
                lemma_first_index_absent(s, '-');
                lemma_end_reads_point(s, line, col);
            },
            Span::LineRange { start, end } => {
                let (a, b) = choose|a: Seq<char>, b: Seq<char>|
                    writes(a, start) && writes(b, end) && s == a + seq!['-'] + b;
                assert(s[0] == a[0]);
                lemma_first_index_between(a, '-', b);
                lemma_end_reads_number(a, start);
                lemma_end_reads_number(b, end);
            },
            Span::ColumnRange { line, start_col, end_col } => {
                lemma_points_read(s, line, start_col, line, end_col);
            },
            Span::MultiLine { start_line, start_col, end_line, end_col } => {
                lemma_points_read(s, start_line, start_col, end_line, end_col);
            },
        }
    }
}

/// Two points with `-` between them read as a specifier of two ends, each
/// with its column.
proof fn lemma_points_read(s: Seq<char>, l1: usize, c1: usize, l2: usize, c2: usize)
    requires
        writes_points(s, l1, c1, l2, c2),
    ensures
        match spec_of(s) {
            Some(t) => span_of(t) == span_of_groups(l1, Some(c1), Some((l2, Some(c2)))),
            None => false,
        },
{
    let (a, b) = choose|a: Seq<char>, b: Seq<char>|
        writes_point(a, l1, c1) && writes_point(b, l2, c2) && s == a + seq!['-'] + b;
    lemma_point_is_end(a, l1, c1);
    lemma_end_form_chars(a);
    assert(s[0] == a[0]);
    lemma_first_index_between(a, '-', b);
    lemma_end_reads_point(a, l1, c1);
    lemma_end_reads_point(b, l2, c2);
}

/// A line is read as the header of `path` and `span` if and only if it is
/// `path`, a colon, and `span` written in one of the six accepted shapes.
pub proof fn lemma_header_accepted(line: Seq<char>, path: Seq<char>, span: Span)
    ensures
        read_header(line) == Ok::<Option<(Seq<char>, Span)>, ParseError>(Some((path, span)))
            <==> is_path(path) && exists|s: Seq<char>|
            writes_span(s, span) && line == path + seq![':'] + s,
{
    let i = first_index(line, ':');
    lemma_first_index(line, ':');
    if read_header(line) == Ok::<Option<(Seq<char>, Span)>, ParseError>(Some((path, span))) {
        let s = line.skip(i + 1);
        lemma_spec_accepted(s, span);
        assert(line =~= path + seq![':'] + s);
        assert(writes_span(s, span) && line == path + seq![':'] + s);
    }
    if is_path(path) && exists|s: Seq<char>| writes_span(s, span) && line == path + seq![':'] + s {
        let s = choose|s: Seq<char>| writes_span(s, span) && line == path + seq![':'] + s;
        lemma_first_index_between(path, ':', s);
        lemma_spec_accepted(s, span);
    }
}

/// A specifier with a column at one end only is rejected: with a path before
/// it, `l1.c1-l2` and `l1-l2.c2` are headers that stand for no span.
pub proof fn lemma_mixed_columns_rejected(
    path: Seq<char>,
    a: Seq<char>,
    b: Seq<char>,
    c: Seq<char>,
)
    requires
        is_path(path),
        is_digits(a) && fits(a),
        is_digits(b) && fits(b),
        is_digits(c) && fits(c),
    ensures
        read_header(path + seq![':'] + (a + seq!['.'] + b + seq!['-'] + c)) == Err::<
            Option<(Seq<char>, Span)>,
            ParseError,
        >(ParseError::MalformedSpan),
        read_header(path + seq![':'] + (a + seq!['-'] + b + seq!['.'] + c)) == Err::<
            Option<(Seq<char>, Span)>,
            ParseError,
        >(ParseError::MalformedSpan),
{
    let left = a + seq!['.'] + b;
    let right = b + seq!['.'] + c;
    lemma_first_index_between(a, '.', b);
    lemma_first_index_between(b, '.', c);
    lemma_first_index_absent(a, '.');
    lemma_first_index_absent(c, '.');
    assert(left[0] == a[0]);
    assert forall|j: int| 0 <= j < left.len() implies left[j] != '-' by {
        if j < a.len() {
            assert(left[j] == a[j]);
        } else if j > a.len() {
            assert(left[j] == b[j - a.len() - 1]);
        }
    }
    lemma_first_index_between(left, '-', c);
    lemma_first_index_between(path, ':', left + seq!['-'] + c);
    assert((left + seq!['-'] + c)[0] == a[0]);
    assert(a + seq!['.'] + b + seq!['-'] + c =~= left + seq!['-'] + c);

    lemma_first_index_between(a, '-', right);
    lemma_first_index_between(path, ':', a + seq!['-'] + right);
    assert((a + seq!['-'] + right)[0] == a[0]);
    assert(a + seq!['-'] + b + seq!['.'] + c =~= a + seq!['-'] + right);
}

} // verus!
