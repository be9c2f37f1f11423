//! The renderer: a record shown beside the lines of the file it points into.

use vstd::prelude::*;
use vstd::string::StringExecFns;
use crate::number::{decimal_string, decimal_text};
use crate::parser::{lines_of, text_lines};
use crate::record::{Record, RecordView};
use crate::serializer::{header_text, join_lines, lemma_join_push};
use crate::span::{bounds_of, line_bounds, push_span, Span};

verus! {

/// The lines of a file of `count` lines that are shown for a span with
/// `context` more lines on each side: those with index from the first
/// component up to, and not including, the second. Indices count from zero.
/// Where the first is not below the second, no line is shown.
pub open spec fn window_of(span: Span, count: usize, context: usize) -> (int, int) {
    let (first, last) = bounds_of(span, count);
    let from = first - 1 - context;
    let to = last + context;
    (
        if from < 0 {
            0
        } else {
            from
        },
        if to > count {
            count as int
        } else {
            to
        },
    )
}

/// The window of lines to show. It never reaches past the end of the file.
pub fn context_window(span: &Span, count: usize, context: usize) -> (r: (usize, usize))
    ensures
        (r.0 as int, r.1 as int) == window_of(*span, count, context),
        r.1 <= count,
{
    let (first, last) = line_bounds(span, count);
    let from = first.saturating_sub(1).saturating_sub(context);
    let to = if context > count - last {
        count
    } else {
        last + context
    };
    (from, to)
}

/// A numeral set to the right of a field five wide.
pub open spec fn number_field(n: nat) -> Seq<char> {
    let digits = decimal_text(n);
    Seq::new((if digits.len() < 5 { 5 - digits.len() } else { 0 }) as nat, |i: int| ' ') + digits
}

/// A line of the file as it is shown: its number, a bar, and its text.
pub open spec fn numbered_line(index: int, text: Seq<char>) -> Seq<char> {
    number_field((index + 1) as nat) + seq![' ', '|', ' '] + text
}

/// The lines of `source` with index from `from` up to `to`, each with its
/// number.
pub open spec fn numbered_lines(source: Seq<Seq<char>>, from: int, to: int) -> Seq<Seq<char>> {
    if from < to {
        Seq::new((to - from) as nat, |i: int| numbered_line(from + i, source[from + i]))
    } else {
        Seq::empty()
    }
}

/// The line that parts the source lines from the body.
pub open spec fn rule() -> Seq<char> {
    seq!['-', '-', '-']
}

/// What is shown for a record: its header, the lines of the file around its
/// span, a rule, and its body.
pub open spec fn render_lines(record: RecordView, source: Seq<Seq<char>>, context: usize) -> Seq<
    Seq<char>,
> {
    let (from, to) = window_of(record.span, source.len() as usize, context);
    seq![header_text(record.path, record.span)] + numbered_lines(source, from, to) + seq![rule()]
        + record.body
}

/// Appends a numeral, set to the right of a field five wide.
fn push_number_field(out: &mut String, n: usize)
    ensures
        final(out)@ == old(out)@ + number_field(n as nat),
{
    let digits = decimal_string(n);
    let len = digits.as_str().unicode_len();
    let pad: usize = if len < 5 {
        5 - len
    } else {
        0
    };
    let mut i: usize = 0;
    while i < pad
        invariant
            i <= pad,
            out@ == old(out)@ + Seq::new(i as nat, |k: int| ' '),
        decreases pad - i,
    {
        out.push(' ');
        proof {
            assert(out@ =~= old(out)@ + Seq::new((i + 1) as nat, |k: int| ' '));
        }
        i += 1;
    }
    out.append(digits.as_str());
    proof {
        assert(out@ =~= old(out)@ + number_field(n as nat));
    }
}

/// Shows a record beside the text of the file it points into, as one text
/// of lines: the header, the lines of `source` around the span with `context`
/// more lines on each side, a rule, and the body.
pub fn render_record(record: &Record, source: &str, context: usize) -> (out: String)
    ensures
        out@ == join_lines(render_lines(record@, lines_of(source@), context)),
{
    let source_lines = text_lines(source);
    let (from, to) = context_window(&record.span, source_lines.len(), context);
    let ghost source_view = lines_of(source@);
    let ghost header = header_text(record.path@, record.span);
    let mut out = String::new();
    out.append(record.path.as_str());
    out.push(':');
    push_span(&mut out, &record.span);
    out.push('\n');
    let ghost mut lines: Seq<Seq<char>> = seq![header];
    proof {
        lemma_join_push(Seq::empty(), header);
        assert(Seq::<Seq<char>>::empty().push(header) =~= lines);
        assert(out@ =~= join_lines(lines));
    }
    let mut i: usize = from;
    while i < to
        invariant
            from <= i,
            to <= source_lines@.len(),
            from < to ==> i <= to,
            source_lines.deep_view() == source_view,
            lines == seq![header] + numbered_lines(source_view, from as int, if from < to { i as int } else { from as int }),
            out@ == join_lines(lines),
        decreases to - i,
    {
        let ghost text = out@;
        push_number_field(&mut out, i + 1);
        out.push(' ');
        out.push('|');
        out.push(' ');
        out.append(source_lines[i].as_str());
        out.push('\n');
        proof {
            let line = numbered_line(i as int, source_view[i as int]);
            assert(source_lines[i as int]@ == source_view[i as int]);
            lemma_join_push(lines, line);
            assert(out@ =~= text + line + seq!['\n']);
            assert(numbered_lines(source_view, from as int, i + 1) =~= numbered_lines(
                source_view,
                from as int,
                i as int,
            ).push(line));
            lines = lines.push(line);
        }
        i += 1;
    }
    out.push('-');
    out.push('-');
    out.push('-');
    out.push('\n');
    proof {
        assert(numbered_lines(source_view, from as int, if from < to { i as int } else { from as int })
            =~= numbered_lines(source_view, from as int, to as int));
        let text = join_lines(lines);
        lemma_join_push(lines, rule());
        assert(out@ =~= text + rule() + seq!['\n']);
        lines = lines.push(rule());
    }
    let ghost base = lines;
    let mut j: usize = 0;
    proof {
        assert(record.body.deep_view().take(0) =~= Seq::<Seq<char>>::empty());
        assert(lines =~= base + record.body.deep_view().take(0));
    }
    while j < record.body.len()
        invariant
            j <= record.body.len(),
            lines == base + record.body.deep_view().take(j as int),
            out@ == join_lines(lines),
        decreases record.body.len() - j,
    {
        let ghost text = out@;
        out.append(record.body[j].as_str());
        out.push('\n');
        proof {
            let line = record.body[j as int]@;
            lemma_join_push(lines, line);
            assert(out@ =~= text + line + seq!['\n']);
            assert(record.body.deep_view().take(j + 1) =~= record.body.deep_view().take(
                j as int,
            ).push(line));
            lines = lines.push(line);
        }
        j += 1;
    }
    proof {
        assert(record.body.deep_view().take(j as int) =~= record@.body);
        assert(lines =~= render_lines(record@, source_view, context));
    }
    out
}

} // verus!
