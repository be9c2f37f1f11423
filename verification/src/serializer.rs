//! The serializer: from records to their canonical text.

use vstd::prelude::*;
use vstd::string::StringExecFns;
use crate::record::{Record, RecordView};
use crate::span::{push_span, span_text, Span};

verus! {

/// The header line of a record.
pub open spec fn header_text(path: Seq<char>, span: Span) -> Seq<char> {
    path + seq![':'] + span_text(span)
}

/// The lines of one record: its header, then its body.
pub open spec fn record_lines(r: RecordView) -> Seq<Seq<char>> {
    seq![header_text(r.path, r.span)] + r.body
}

/// The lines of a sequence of records, with one empty line between each
/// record and the next.
pub open spec fn serial_lines(records: Seq<RecordView>) -> Seq<Seq<char>>
    decreases records.len(),
{
    if records.len() == 0 {
        Seq::empty()
    } else if records.len() == 1 {
        record_lines(records[0])
    } else {
        serial_lines(records.drop_last()).push(Seq::empty()) + record_lines(records.last())
    }
}

/// The text made of the given lines, each closed by `\n`.
pub open spec fn join_lines(lines: Seq<Seq<char>>) -> Seq<char>
    decreases lines.len(),
{
    if lines.len() == 0 {
        Seq::empty()
    } else {
        join_lines(lines.drop_last()) + lines.last() + seq!['\n']
    }
}

/// The canonical text of a sequence of records.
pub open spec fn serialize_text(records: Seq<RecordView>) -> Seq<char> {
    join_lines(serial_lines(records))
}

/// One more line at the end of a text of lines.
pub proof fn lemma_join_push(lines: Seq<Seq<char>>, line: Seq<char>)
    ensures
        join_lines(lines.push(line)) == join_lines(lines) + line + seq!['\n'],
{
    assert(lines.push(line).drop_last() =~= lines);
}

/// Writes records as text: for each record its header line and the lines of
/// its body, and one empty line between each record and the next.
pub fn serialize(records: &[Record]) -> (out: String)
    ensures
        out@ == serialize_text(records.deep_view()),
{
    let mut out = String::new();
    let ghost all = records.deep_view();
    let ghost mut lines: Seq<Seq<char>> = Seq::empty();
    let mut i: usize = 0;
    proof {
        assert(all.take(0) =~= Seq::<RecordView>::empty());
    }
    while i < records.len()
        invariant
            i <= records.len(),
            all == records.deep_view(),
            lines == serial_lines(all.take(i as int)),
            out@ == join_lines(lines),
        decreases records.len() - i,
    {
        let record = &records[i];
        let ghost before = lines;
        if i > 0 {
            out.push('\n');
            proof {
                lemma_join_push(lines, Seq::empty());
                assert(out@ =~= join_lines(lines.push(Seq::empty())));
                lines = lines.push(Seq::empty());
            }
        }
        let ghost base = lines;
        let ghost text = out@;
        out.append(record.path.as_str());
        out.push(':');
        push_span(&mut out, &record.span);
        out.push('\n');
        proof {
            let header = header_text(record.path@, record.span);
            lemma_join_push(lines, header);
            assert(out@ =~= text + header + seq!['\n']);
            lines = lines.push(header);
            assert(record.body.deep_view().take(0) =~= Seq::<Seq<char>>::empty());
            assert(lines =~= base.push(header) + record.body.deep_view().take(0));
        }
        let mut j: usize = 0;
        while j < record.body.len()
            invariant
                j <= record.body.len(),
                lines == base.push(header_text(record.path@, record.span))
                    + record.body.deep_view().take(j as int),
                out@ == join_lines(lines),
            decreases record.body.len() - j,
        {
            let ghost text = out@;
            out.append(record.body[j].as_str());
            out.push('\n');
            proof {
                let line = record.body[j as int]@;
                lemma_join_push(lines, line);
                assert(out@ =~= text + line + seq!['\n']);
                assert(record.body.deep_view().take(j + 1) =~= record.body.deep_view().take(
                    j as int,
                ).push(line));
                lines = lines.push(line);
            }
            j += 1;
        }
        proof {
            let view = all[i as int];
            assert(view == record@);
            assert(record.body.deep_view().take(j as int) =~= view.body);
            assert(lines =~= base + record_lines(view));
            assert(all.take(i + 1).drop_last() =~= all.take(i as int));
            assert(all.take(i + 1).last() == view);
            if i == 0 {
                assert(all.take(i + 1)[0] == view);
                assert(base =~= Seq::<Seq<char>>::empty());
            }
        }
        i += 1;
    }
    proof {
        assert(all.take(i as int) =~= all);
    }
    out
}

} // verus!
