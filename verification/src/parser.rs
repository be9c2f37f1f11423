//! The parser: from a text to its records.

use vstd::prelude::*;
use vstd::slice::slice_subrange;
use crate::chars::{find, first_index, lemma_first_index, string_of, to_chars};
use crate::header::{header_of, is_path, parse_header_chars, read_header};
use crate::record::{Record, RecordView};
use crate::span::{is_canonical, ParseError, Span};

verus! {

/// A line without the carriage return that may end it.
pub open spec fn strip_cr(s: Seq<char>) -> Seq<char> {
    if s.len() > 0 && s.last() == '\r' {
        s.drop_last()
    } else {
        s
    }
}

/// The lines of a text. A line ends at `\n`, or at `\r\n`, or at the end of
/// the text; the line ending is no part of the line, and a text that ends
/// with a line ending has no empty line after it.
pub open spec fn lines_of(text: Seq<char>) -> Seq<Seq<char>>
    decreases text.len(),
{
    if text.len() == 0 {
        Seq::empty()
    } else {
        let i = first_index(text, '\n');
        if i == text.len() {
            seq![text]
        } else {
            proof {
                lemma_first_index(text, '\n');
            }
            seq![strip_cr(text.take(i))] + lines_of(text.skip(i + 1))
        }
    }
}

/// The records after one more line. A header opens a new record; any other
/// line joins the body of the last record, or is dropped where there is none.
pub open spec fn add_line(records: Seq<RecordView>, line: Seq<char>) -> Result<
    Seq<RecordView>,
    ParseError,
> {
    match read_header(line) {
        Err(e) => Err(e),
        Ok(Some((path, span))) => Ok(records.push(RecordView { path, span, body: Seq::empty() })),
        Ok(None) => if records.len() == 0 {
            Ok(records)
        } else {
            Ok(records.drop_last().push(records.last().with_line(line)))
        },
    }
}

/// The records after more lines, taken in order, or the error of the first
/// header among them that stands for no span.
pub open spec fn add_lines(records: Seq<RecordView>, lines: Seq<Seq<char>>) -> Result<
    Seq<RecordView>,
    ParseError,
>
    decreases lines.len(),
{
    if lines.len() == 0 {
        Ok(records)
    } else {
        match add_lines(records, lines.drop_last()) {
            Err(e) => Err(e),
            Ok(before) => add_line(before, lines.last()),
        }
    }
}

/// The records of a sequence of lines.
pub open spec fn parse_lines(lines: Seq<Seq<char>>) -> Result<Seq<RecordView>, ParseError> {
    add_lines(Seq::empty(), lines)
}

/// The records of a text.
pub open spec fn parse_text(text: Seq<char>) -> Result<Seq<RecordView>, ParseError> {
    parse_lines(lines_of(text))
}

/// What the parser gave, as a mathematical value.
pub open spec fn records_view(r: Result<Vec<Record>, ParseError>) -> Result<
    Seq<RecordView>,
    ParseError,
> {
    match r {
        Ok(records) => Ok(records.deep_view()),
        Err(e) => Err(e),
    }
}

/// The records read so far: the closed ones, and the open one after them.
pub open spec fn with_open(closed: Seq<RecordView>, open: bool, current: RecordView) -> Seq<
    RecordView,
> {
    if open {
        closed.push(current)
    } else {
        closed
    }
}

/// Takes the carriage return off the end of a line.
fn without_cr<'a>(s: &'a [char]) -> (r: &'a [char])
    ensures
        r@ == strip_cr(s@),
{
    let n = s.len();
    if n > 0 && s[n - 1] == '\r' {
        slice_subrange(s, 0, n - 1)
    } else {
        s
    }
}

/// The first line of a text that is not empty, and the number of characters
/// that the line and its ending take.
fn first_line<'a>(text: &'a [char]) -> (r: (&'a [char], usize))
    requires
        text@.len() > 0,
    ensures
        0 < r.1 <= text@.len(),
        lines_of(text@) == seq![r.0@] + lines_of(text@.skip(r.1 as int)),
{
    let n = text.len();
    proof {
        lemma_first_index(text@, '\n');
    }
    match find(text, '\n') {
        None => {
            proof {
                assert(text@.skip(n as int) =~= Seq::<char>::empty());
                assert(lines_of(text@.skip(n as int)) =~= Seq::<Seq<char>>::empty());
                assert(seq![text@] + Seq::<Seq<char>>::empty() =~= seq![text@]);
            }
            (text, n)
        },
        Some(i) => (without_cr(slice_subrange(text, 0, i)), i + 1),
    }
}

/// The lines of a text, each as a string of its own.
pub fn text_lines(input: &str) -> (lines: Vec<String>)
    ensures
        lines.deep_view() == lines_of(input@),
{
    let chars = to_chars(input);
    let text = chars.as_slice();
    let n = text.len();
    let mut lines: Vec<String> = Vec::new();
    let mut pos: usize = 0;
    proof {
        assert(text@.skip(0) =~= text@);
        assert(lines.deep_view() + lines_of(text@) =~= lines_of(text@));
    }
    while pos < n
        invariant
            text@ == input@,
            n == text@.len(),
            pos <= n,
            lines_of(text@) == lines.deep_view() + lines_of(text@.skip(pos as int)),
        decreases n - pos,
    {
        let (line, used) = first_line(slice_subrange(text, pos, n));
        let ghost done = lines.deep_view();
        lines.push(string_of(line));
        proof {
            assert(text@.skip(pos as int).skip(used as int) =~= text@.skip(pos + used));
            assert(lines.deep_view() =~= done.push(line@));
            assert(done + (seq![line@] + lines_of(text@.skip(pos + used))) =~= done.push(line@)
                + lines_of(text@.skip(pos + used)));
        }
        pos = pos + used;
    }
    proof {
        assert(text@.skip(pos as int) =~= Seq::<char>::empty());
        assert(lines.deep_view() + Seq::<Seq<char>>::empty() =~= lines.deep_view());
    }
    lines
}

/// Reads a text into its records. A header line opens a record, the lines
/// after it are its body, and lines before the first header are dropped.
/// The first header whose specifier stands for no span ends the reading with
/// its error.
pub fn parse(input: &str) -> (result: Result<Vec<Record>, ParseError>)
    ensures
        records_view(result) == parse_text(input@),
{
    let chars = to_chars(input);
    let text = chars.as_slice();
    let n = text.len();
    let mut records: Vec<Record> = Vec::new();
    let mut open = false;
    let mut path = String::new();
    let mut span = Span::File;
    let mut body: Vec<String> = Vec::new();
    let mut pos: usize = 0;
    let ghost mut done: Seq<Seq<char>> = Seq::empty();
    proof {
        assert(text@.skip(0) =~= text@);
        assert(done + lines_of(text@) =~= lines_of(text@));
        assert(records.deep_view() =~= Seq::<RecordView>::empty());
    }
    while pos < n
        invariant
            text@ == input@,
            n == text@.len(),
            pos <= n,
            lines_of(text@) == done + lines_of(text@.skip(pos as int)),
            !open ==> records@.len() == 0,
            parse_lines(done) == Ok::<Seq<RecordView>, ParseError>(
                with_open(
                    records.deep_view(),
                    open,
                    RecordView { path: path@, span, body: body.deep_view() },
                ),
            ),
        decreases n - pos,
    {
        let rest = slice_subrange(text, pos, n);
        let (line, used) = first_line(rest);
        let ghost before = with_open(
            records.deep_view(),
            open,
            RecordView { path: path@, span, body: body.deep_view() },
        );
        proof {
            assert(text@.skip(pos as int).skip(used as int) =~= text@.skip(pos + used));
            assert(done + (seq![line@] + lines_of(text@.skip(pos + used))) =~= done.push(line@)
                + lines_of(text@.skip(pos + used)));
            assert(done.push(line@).drop_last() =~= done);
            assert(parse_lines(done.push(line@)) == add_line(before, line@));
        }
        match parse_header_chars(line) {
            Err(e) => {
                proof {
                    lemma_add_lines_concat(
                        Seq::empty(),
                        done.push(line@),
                        lines_of(text@.skip(pos + used)),
                    );
                }
                return Err(e);
            },
            Ok(Some((new_path, new_span))) => {
                if open {
                    let ghost closed = records.deep_view();
                    let record = Record { path, span, body };
                    records.push(record);
                    proof {
                        assert(records.deep_view() =~= closed.push(record.deep_view()));
                    }
                }
                path = new_path;
                span = new_span;
                body = Vec::new();
                open = true;
                proof {
                    assert(body.deep_view() =~= Seq::<Seq<char>>::empty());
                }
            },
            Ok(None) => {
                if open {
                    let ghost lines = body.deep_view();
                    let text_line = string_of(line);
                    body.push(text_line);
                    proof {
                        assert(body.deep_view() =~= lines.push(line@));
                        assert(before.drop_last() =~= records.deep_view());
                    }
                }
            },
        }
        pos = pos + used;
        proof {
            done = done.push(line@);
        }
    }
    proof {
        assert(text@.skip(pos as int) =~= Seq::<char>::empty());
        assert(done + Seq::<Seq<char>>::empty() =~= done);
    }
    if open {
        let ghost closed = records.deep_view();
        let record = Record { path, span, body };
        records.push(record);
        proof {
            assert(records.deep_view() =~= closed.push(record.deep_view()));
        }
    }
    Ok(records)
}

/// Lines taken in two runs give what they give in one run.
pub proof fn lemma_add_lines_concat(
    records: Seq<RecordView>,
    head: Seq<Seq<char>>,
    tail: Seq<Seq<char>>,
)
    ensures
        add_lines(records, head + tail) == match add_lines(records, head) {
            Err(e) => Err(e),
            Ok(before) => add_lines(before, tail),
        },
    decreases tail.len(),
{
    if tail.len() == 0 {
        assert(head + tail =~= head);
    } else {
        lemma_add_lines_concat(records, head, tail.drop_last());
        assert((head + tail).drop_last() =~= head + tail.drop_last());
    }
}

/// Lines before the first header are dropped: they give no record and no
/// error.
pub proof fn lemma_leading_lines_dropped(head: Seq<Seq<char>>, tail: Seq<Seq<char>>)
    requires
        forall|i: int|
            0 <= i < head.len() ==> read_header(#[trigger] head[i]) == Ok::<
                Option<(Seq<char>, Span)>,
                ParseError,
            >(None),
    ensures
        parse_lines(head) == Ok::<Seq<RecordView>, ParseError>(Seq::empty()),
        parse_lines(head + tail) == parse_lines(tail),
    decreases head.len(),
{
    if head.len() > 0 {
        let front = head.drop_last();
        lemma_leading_lines_dropped(front, Seq::empty());
        assert(front + Seq::<Seq<char>>::empty() =~= front);
    }
    lemma_add_lines_concat(Seq::empty(), head, tail);
}

/// What holds of every record that the parser gives: its path is a path,
/// its span is canonical, and no line of its body is a header.
pub open spec fn is_parsed_record(r: RecordView) -> bool {
    &&& is_path(r.path)
    &&& is_canonical(r.span)
    &&& forall|j: int| 0 <= j < r.body.len() ==> header_of(#[trigger] r.body[j]) is None
}

/// More lines keep the records as the parser gives them.
pub proof fn lemma_add_lines_parsed(records: Seq<RecordView>, lines: Seq<Seq<char>>)
    requires
        forall|i: int| 0 <= i < records.len() ==> is_parsed_record(#[trigger] records[i]),
    ensures
        match add_lines(records, lines) {
            Ok(after) => forall|i: int|
                0 <= i < after.len() ==> is_parsed_record(#[trigger] after[i]),
            Err(_) => true,
        },
    decreases lines.len(),
{
    if lines.len() > 0 {
        lemma_add_lines_parsed(records, lines.drop_last());
        let line = lines.last();
        match add_lines(records, lines.drop_last()) {
            Ok(before) => {
                if header_of(line) is None && before.len() > 0 {
                    let last = before.last();
                    assert(is_parsed_record(last));
                    assert forall|j: int| 0 <= j < last.with_line(line).body.len() implies header_of(
                        #[trigger] last.with_line(line).body[j],
                    ) is None by {
                        if j < last.body.len() {
                            assert(last.with_line(line).body[j] == last.body[j]);
                        }
                    }
                }
            },
            Err(_) => {},
        }
    }
}

/// Every record of a text has a path that is a path and a canonical span,
/// and no line of its body is a header.
pub proof fn lemma_parsed_records(text: Seq<char>)
    ensures
        match parse_text(text) {
            Ok(records) => forall|i: int|
                0 <= i < records.len() ==> is_parsed_record(#[trigger] records[i]),
            Err(_) => true,
        },
{
    lemma_add_lines_parsed(Seq::empty(), lines_of(text));
}

} // verus!
