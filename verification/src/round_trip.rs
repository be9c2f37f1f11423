//! What the parser makes of the serializer's text.

use vstd::prelude::*;
use crate::chars::{
    first_index, is_digit, is_space, lemma_first_index_absent, lemma_first_index_between,
};
use crate::header::{
    end_fits, end_of, end_value, header_of, is_path, read_header, span_of, spec_of, EndText,
};
use crate::number::{decimal_text, lemma_decimal_round_trip, lemma_decimal_text_digits};
use crate::parser::{
    add_lines, lemma_add_lines_concat, lines_of, parse_lines, parse_text, strip_cr,
};
use crate::record::RecordView;
use crate::serializer::{header_text, join_lines, record_lines, serial_lines, serialize_text};
use crate::span::{is_canonical, point_text, span_text, ParseError, Span};

verus! {

/// A character that a specifier is written with.
pub open spec fn is_spec_char(c: char) -> bool {
    is_digit(c) || c == '.' || c == '-' || c == '*'
}

/// The canonical specifier of a span is not empty and is written with
/// digits, `.`, `-` and `*` only.
pub proof fn lemma_span_text_chars(span: Span)
    ensures
        span_text(span).len() > 0,
        forall|i: int| 0 <= i < span_text(span).len() ==> is_spec_char(#[trigger] span_text(span)[i]),
{
    match span {
        Span::File => {},
        Span::Line(l) => {
            lemma_decimal_text_digits(l as nat);
        },
        Span::Point { line, col } => {
            lemma_decimal_text_digits(line as nat);
            lemma_decimal_text_digits(col as nat);
        },
        Span::LineRange { start, end } => {
            lemma_decimal_text_digits(start as nat);
            lemma_decimal_text_digits(end as nat);
        },
        Span::ColumnRange { line, start_col, end_col } => {
            lemma_decimal_text_digits(line as nat);
            lemma_decimal_text_digits(start_col as nat);
            lemma_decimal_text_digits(end_col as nat);
        },
        Span::MultiLine { start_line, start_col, end_line, end_col } => {
            lemma_decimal_text_digits(start_line as nat);
            lemma_decimal_text_digits(start_col as nat);
            lemma_decimal_text_digits(end_line as nat);
            lemma_decimal_text_digits(end_col as nat);
        },
    }
}

/// The canonical numeral of a line number reads as an end without a column.
pub proof fn lemma_end_of_number(n: usize)
    ensures
        end_of(decimal_text(n as nat)) == Some(EndText { line: decimal_text(n as nat), col: None }),
        end_fits(EndText { line: decimal_text(n as nat), col: None }),
        end_value(EndText { line: decimal_text(n as nat), col: None }) == (n, None::<usize>),
{
    let s = decimal_text(n as nat);
    lemma_decimal_text_digits(n as nat);
    lemma_decimal_round_trip(n as nat);
    lemma_first_index_absent(s, '.');
}

/// The text `line.col` reads as an end with a column.
pub proof fn lemma_end_of_point(line: usize, col: usize)
    ensures
        end_of(point_text(line, col)) == Some(
            EndText { line: decimal_text(line as nat), col: Some(decimal_text(col as nat)) },
        ),
        end_fits(EndText { line: decimal_text(line as nat), col: Some(decimal_text(col as nat)) }),
        end_value(
            EndText { line: decimal_text(line as nat), col: Some(decimal_text(col as nat)) },
        ) == (line, Some(col)),
{
    let a = decimal_text(line as nat);
    let b = decimal_text(col as nat);
    lemma_decimal_text_digits(line as nat);
    lemma_decimal_text_digits(col as nat);
    lemma_decimal_round_trip(line as nat);
    lemma_decimal_round_trip(col as nat);
    lemma_first_index_between(a, '.', b);
}

/// Reading the canonical specifier of a canonical span gives the span back.
pub proof fn lemma_spec_round_trip(span: Span)
    requires
        is_canonical(span),
    ensures
        match spec_of(span_text(span)) {
            Some(t) => span_of(t) == Ok::<Span, ParseError>(span),
            None => false,
        },
{
    let s = span_text(span);
    lemma_span_text_chars(span);
    match span {
        Span::File => {},
        Span::Line(l) => {
            lemma_decimal_text_digits(l as nat);
            assert(s[0] != '*');
            lemma_first_index_absent(s, '-');
            lemma_end_of_number(l);
        },
        Span::Point { line, col } => {
            lemma_decimal_text_digits(line as nat);
            lemma_decimal_text_digits(col as nat);
            assert(s[0] != '*');
            lemma_first_index_absent(s, '-');
            lemma_end_of_point(line, col);
        },
        Span::LineRange { start, end } => {
            lemma_decimal_text_digits(start as nat);
            lemma_decimal_text_digits(end as nat);
            assert(s[0] != '*');
            lemma_first_index_between(decimal_text(start as nat), '-', decimal_text(end as nat));
            lemma_end_of_number(start);
            lemma_end_of_number(end);
        },
        Span::ColumnRange { line, start_col, end_col } => {
            lemma_decimal_text_digits(line as nat);
            lemma_decimal_text_digits(start_col as nat);
            lemma_decimal_text_digits(end_col as nat);
            assert(s[0] != '*');
            lemma_first_index_between(point_text(line, start_col), '-', point_text(line, end_col));
            lemma_end_of_point(line, start_col);
            lemma_end_of_point(line, end_col);
        },
        Span::MultiLine { start_line, start_col, end_line, end_col } => {
            lemma_decimal_text_digits(start_line as nat);
            lemma_decimal_text_digits(start_col as nat);
            lemma_decimal_text_digits(end_line as nat);
            lemma_decimal_text_digits(end_col as nat);
            assert(s[0] != '*');
            lemma_first_index_between(
                point_text(start_line, start_col),
                '-',
                point_text(end_line, end_col),
            );
            lemma_end_of_point(start_line, start_col);
            lemma_end_of_point(end_line, end_col);
        },
    }
}

/// Reading the header line of a path and a canonical span gives both back.
pub proof fn lemma_header_round_trip(path: Seq<char>, span: Span)
    requires
        is_path(path),
        is_canonical(span),
    ensures
        read_header(header_text(path, span)) == Ok::<Option<(Seq<char>, Span)>, ParseError>(
            Some((path, span)),
        ),
{
    lemma_first_index_between(path, ':', span_text(span));
    lemma_spec_round_trip(span);
}

/// A line that the splitting of a text gives back as it is: it holds no
/// line feed and does not end with a carriage return.
pub open spec fn is_line(s: Seq<char>) -> bool {
    (forall|i: int| 0 <= i < s.len() ==> s[i] != '\n') && !(s.len() > 0 && s.last() == '\r')
}

/// A line that can stand in a body: no header, and given back as it is by
/// the splitting of a text.
pub open spec fn is_body_line(s: Seq<char>) -> bool {
    is_line(s) && header_of(s) is None
}

/// A record whose text reads back as the record: its path is a path, its
/// span is canonical, and each line of its body can stand in a body.
pub open spec fn is_plain_record(r: RecordView) -> bool {
    &&& is_path(r.path)
    &&& is_canonical(r.span)
    &&& forall|i: int| 0 <= i < r.body.len() ==> is_body_line(#[trigger] r.body[i])
}

/// The records with the empty line that the serializer puts after each of
/// them but the last, taken as the last line of the body.
pub open spec fn spaced(records: Seq<RecordView>) -> Seq<RecordView> {
    Seq::new(
        records.len(),
        |i: int|
            if i + 1 < records.len() {
                records[i].with_line(Seq::empty())
            } else {
                records[i]
            },
    )
}

/// A text of lines begins with its first line.
pub proof fn lemma_join_front(line: Seq<char>, rest: Seq<Seq<char>>)
    ensures
        join_lines(seq![line] + rest) == line + seq!['\n'] + join_lines(rest),
    decreases rest.len(),
{
    let all = seq![line] + rest;
    if rest.len() == 0 {
        assert(all.drop_last() =~= Seq::<Seq<char>>::empty());
        assert(rest =~= Seq::<Seq<char>>::empty());
        assert(all.last() == line);
        assert(join_lines(Seq::<Seq<char>>::empty()) =~= Seq::<char>::empty());
        assert(join_lines(all) =~= line + seq!['\n'] + join_lines(rest));
    } else {
        lemma_join_front(line, rest.drop_last());
        assert(all.drop_last() =~= seq![line] + rest.drop_last());
        assert(all.last() == rest.last());
        assert(join_lines(all) =~= line + seq!['\n'] + join_lines(rest));
    }
}

/// Splitting a text of lines gives the lines back.
pub proof fn lemma_lines_of_join(lines: Seq<Seq<char>>)
    requires
        forall|i: int| 0 <= i < lines.len() ==> is_line(#[trigger] lines[i]),
    ensures
        lines_of(join_lines(lines)) == lines,
    decreases lines.len(),
{
    if lines.len() > 0 {
        let line = lines[0];
        let rest = lines.drop_first();
        assert(lines =~= seq![line] + rest);
        lemma_join_front(line, rest);
        assert forall|i: int| 0 <= i < rest.len() implies is_line(#[trigger] rest[i]) by {
            assert(rest[i] == lines[i + 1]);
        }
        lemma_lines_of_join(rest);
        assert(is_line(line));
        lemma_first_index_between(line, '\n', join_lines(rest));
        assert(strip_cr(line) == line);
        assert(seq![line] + rest =~= lines);
    }
}

/// The header line of a path and a span is given back as it is by the
/// splitting of a text.
pub proof fn lemma_header_is_line(path: Seq<char>, span: Span)
    requires
        is_path(path),
    ensures
        is_line(header_text(path, span)),
{
    let s = header_text(path, span);
    let t = span_text(span);
    lemma_span_text_chars(span);
    assert forall|i: int| 0 <= i < s.len() implies s[i] != '\n' && s[i] != '\r' by {
        if i < path.len() {
            assert(s[i] == path[i]);
            assert(!is_space(path[i]));
        } else if i > path.len() {
            assert(s[i] == t[i - path.len() - 1]);
            assert(is_spec_char(t[i - path.len() - 1]));
        }
    }
}

/// Lines that are no headers join the body of the last record.
pub proof fn lemma_add_body(records: Seq<RecordView>, body: Seq<Seq<char>>)
    requires
        records.len() > 0,
        forall|i: int| 0 <= i < body.len() ==> header_of(#[trigger] body[i]) is None,
    ensures
        add_lines(records, body) == Ok::<Seq<RecordView>, ParseError>(
            records.drop_last().push(
                RecordView {
                    path: records.last().path,
                    span: records.last().span,
                    body: records.last().body + body,
                },
            ),
        ),
    decreases body.len(),
{
    let last = records.last();
    if body.len() == 0 {
        assert(last.body + body =~= last.body);
        assert(records.drop_last().push(last) =~= records);
    } else {
        let front = body.drop_last();
        lemma_add_body(records, front);
        let before = records.drop_last().push(
            RecordView { path: last.path, span: last.span, body: last.body + front },
        );
        assert(header_of(body.last()) is None);
        assert(before.drop_last() =~= records.drop_last());
        assert((last.body + front).push(body.last()) =~= last.body + body);
    }
}

/// The lines of a record that reads back add that record.
pub proof fn lemma_add_record(records: Seq<RecordView>, r: RecordView)
    requires
        is_plain_record(r),
    ensures
        add_lines(records, record_lines(r)) == Ok::<Seq<RecordView>, ParseError>(records.push(r)),
{
    let header = header_text(r.path, r.span);
    lemma_header_round_trip(r.path, r.span);
    lemma_add_lines_concat(records, seq![header], r.body);
    assert(seq![header].drop_last() =~= Seq::<Seq<char>>::empty());
    assert(add_lines(records, Seq::<Seq<char>>::empty()) == Ok::<Seq<RecordView>, ParseError>(
        records,
    ));
    assert(seq![header].last() == header);
    let opened = records.push(RecordView { path: r.path, span: r.span, body: Seq::empty() });
    assert(add_lines(records, seq![header]) == Ok::<Seq<RecordView>, ParseError>(opened));
    lemma_add_body(opened, r.body);
    assert(opened.drop_last() =~= records);
    assert(Seq::<Seq<char>>::empty() + r.body =~= r.body);
}

/// The records of the serializer's lines.
pub proof fn lemma_parse_serial_lines(records: Seq<RecordView>)
    requires
        forall|i: int| 0 <= i < records.len() ==> is_plain_record(#[trigger] records[i]),
    ensures
        parse_lines(serial_lines(records)) == Ok::<Seq<RecordView>, ParseError>(spaced(records)),
    decreases records.len(),
{
    if records.len() == 0 {
        assert(spaced(records) =~= Seq::<RecordView>::empty());
    } else if records.len() == 1 {
        lemma_add_record(Seq::empty(), records[0]);
        assert(Seq::<RecordView>::empty().push(records[0]) =~= spaced(records));
    } else {
        let front = records.drop_last();
        let last = records.last();
        let gap = Seq::<char>::empty();
        lemma_parse_serial_lines(front);
        let head = serial_lines(front).push(gap);
        assert(head.drop_last() =~= serial_lines(front));
        assert(first_index(gap, ':') == 0);
        assert(header_of(gap) is None);
        let closed = spaced(front).drop_last().push(spaced(front).last().with_line(gap));
        assert(add_lines(Seq::empty(), head) == Ok::<Seq<RecordView>, ParseError>(closed));
        lemma_add_lines_concat(Seq::empty(), head, record_lines(last));
        lemma_add_record(closed, last);
        assert(closed.push(last) =~= spaced(records));
    }
}

/// Each line of the serializer is given back as it is by the splitting of a
/// text.
pub proof fn lemma_serial_lines_plain(records: Seq<RecordView>)
    requires
        forall|i: int| 0 <= i < records.len() ==> is_plain_record(#[trigger] records[i]),
    ensures
        forall|i: int|
            0 <= i < serial_lines(records).len() ==> is_line(#[trigger] serial_lines(records)[i]),
    decreases records.len(),
{
    if records.len() > 0 {
        let last = records.last();
        lemma_header_is_line(last.path, last.span);
        assert forall|i: int| 0 <= i < record_lines(last).len() implies is_line(
            #[trigger] record_lines(last)[i],
        ) by {
            if i > 0 {
                assert(record_lines(last)[i] == last.body[i - 1]);
                assert(is_body_line(last.body[i - 1]));
            }
        }
        if records.len() > 1 {
            lemma_serial_lines_plain(records.drop_last());
            let head = serial_lines(records.drop_last()).push(Seq::empty());
            assert forall|i: int| 0 <= i < serial_lines(records).len() implies is_line(
                #[trigger] serial_lines(records)[i],
            ) by {
                if i < head.len() - 1 {
                    assert(serial_lines(records)[i] == serial_lines(records.drop_last())[i]);
                } else if i == head.len() - 1 {
                    assert(serial_lines(records)[i] == Seq::<char>::empty());
                } else {
                    assert(serial_lines(records)[i] == record_lines(last)[i - head.len()]);
                }
            }
        }
    }
}

/// Parsing the text of records that read back gives the records, each but
/// the last with one empty line more at the end of its body: the line that
/// the serializer puts between a record and the next.
pub proof fn lemma_parse_serialized(records: Seq<RecordView>)
    requires
        forall|i: int| 0 <= i < records.len() ==> is_plain_record(#[trigger] records[i]),
    ensures
        parse_text(serialize_text(records)) == Ok::<Seq<RecordView>, ParseError>(spaced(records)),
{
    lemma_serial_lines_plain(records);
    lemma_lines_of_join(serial_lines(records));
    lemma_parse_serial_lines(records);
}

/// Round trip: parsing the text of at most one record that reads back gives
/// the same sequence of records.
pub proof fn lemma_round_trip(records: Seq<RecordView>)
    requires
        records.len() <= 1,
        forall|i: int| 0 <= i < records.len() ==> is_plain_record(#[trigger] records[i]),
    ensures
        parse_text(serialize_text(records)) == Ok::<Seq<RecordView>, ParseError>(records),
{
    lemma_parse_serialized(records);
    assert(spaced(records) =~= records);
}

} // verus!
