use ptcr::{parse, render_record, serialize, Record, Span};

fn record(path: &str, span: Span, body: &[&str]) -> Record {
    Record {
        path: path.to_string(),
        span,
        body: body.iter().map(|line| line.to_string()).collect(),
    }
}

#[test]
fn serialize_nothing() {
    assert_eq!(serialize(&[]), "");
}

#[test]
fn serialize_one_record() {
    let r = record("src/lib.rs", Span::Point { line: 3, col: 14 }, &["first", "  second"]);
    assert_eq!(serialize(&[r]), "src/lib.rs:3.14\nfirst\n  second\n");
}

#[test]
fn serialize_puts_one_empty_line_between_records() {
    let records = vec![
        record("a.rs", Span::Line(1), &["x", "y"]),
        record("b.rs", Span::File, &[]),
        record("c.rs", Span::ColumnRange { line: 2, start_col: 3, end_col: 9 }, &["z"]),
    ];
    assert_eq!(serialize(&records), "a.rs:1\nx\ny\n\nb.rs:*\n\nc.rs:2.3-2.9\nz\n");
}

#[test]
fn round_trip_of_one_record() {
    let shapes = [
        Span::File,
        Span::Line(7),
        Span::Point { line: 7, col: 8 },
        Span::LineRange { start: 7, end: 9 },
        Span::ColumnRange { line: 7, start_col: 1, end_col: 4 },
        Span::MultiLine { start_line: 7, start_col: 1, end_line: 9, end_col: 4 },
    ];
    for span in shapes {
        let records = vec![record("dir/x.rs", span, &["one", "", " two: 2 ", "a b:1"])];
        assert_eq!(parse(&serialize(&records)).unwrap(), records);
    }
    let records = vec![record("x", Span::Line(usize::MAX), &[])];
    assert_eq!(parse(&serialize(&records)).unwrap(), records);
    let none: Vec<Record> = Vec::new();
    assert_eq!(parse(&serialize(&none)).unwrap(), none);
}

#[test]
fn round_trip_of_several_records_keeps_the_separator_in_the_body() {
    let records = vec![
        record("a.rs", Span::Line(1), &["x"]),
        record("b.rs", Span::LineRange { start: 2, end: 3 }, &[]),
        record("c.rs", Span::File, &["y", "z"]),
    ];
    let expected = vec![
        record("a.rs", Span::Line(1), &["x", ""]),
        record("b.rs", Span::LineRange { start: 2, end: 3 }, &[""]),
        record("c.rs", Span::File, &["y", "z"]),
    ];
    assert_eq!(parse(&serialize(&records)).unwrap(), expected);
}

#[test]
fn parsed_text_serializes_to_text_that_parses_alike() {
    let text = "junk\na.rs:01.2-1.3\nx\n\nb.rs:4\n";
    let records = parse(text).unwrap();
    let again = serialize(&records);
    assert_eq!(again, "a.rs:1.2-1.3\nx\n\n\nb.rs:4\n");
    let expected = vec![
        record("a.rs", Span::ColumnRange { line: 1, start_col: 2, end_col: 3 }, &["x", "", ""]),
        record("b.rs", Span::Line(4), &[]),
    ];
    assert_eq!(parse(&again).unwrap(), expected);
}

#[test]
fn render_clamps_the_context_to_the_file() {
    let r = record("f.rs", Span::Line(1), &["note"]);
    let out = render_record(&r, "one\ntwo\nthree\n", 5);
    assert_eq!(out, "f.rs:1\n    1 | one\n    2 | two\n    3 | three\n---\nnote\n");
}

#[test]
fn render_without_context() {
    let r = record("f.rs", Span::LineRange { start: 2, end: 3 }, &["a", "b"]);
    let out = render_record(&r, "one\ntwo\nthree\nfour", 0);
    assert_eq!(out, "f.rs:2-3\n    2 | two\n    3 | three\n---\na\nb\n");
}

#[test]
fn render_with_context() {
    let r = record("f.rs", Span::Point { line: 3, col: 2 }, &[]);
    let out = render_record(&r, "one\r\ntwo\r\nthree\r\nfour\r\nfive\r\n", 1);
    assert_eq!(out, "f.rs:3.2\n    2 | two\n    3 | three\n    4 | four\n---\n");
}

#[test]
fn render_whole_file() {
    let r = record("f.rs", Span::File, &["all of it"]);
    assert_eq!(render_record(&r, "x\ny", 0), "f.rs:*\n    1 | x\n    2 | y\n---\nall of it\n");
    assert_eq!(render_record(&r, "", 3), "f.rs:*\n---\nall of it\n");
}

#[test]
fn render_span_outside_the_file() {
    let r = record("f.rs", Span::Line(9), &["gone"]);
    assert_eq!(render_record(&r, "x\ny\n", 0), "f.rs:9\n---\ngone\n");
    assert_eq!(render_record(&r, "x\ny\n", 7), "f.rs:9\n    2 | y\n---\ngone\n");
    let r = record("f.rs", Span::LineRange { start: 3, end: 1 }, &[]);
    assert_eq!(render_record(&r, "a\nb\nc\nd\n", 0), "f.rs:3-1\n---\n");
    let r = record("f.rs", Span::Line(0), &[]);
    assert_eq!(render_record(&r, "a\nb\nc\n", 0), "f.rs:0\n---\n");
    assert_eq!(render_record(&r, "a\nb\nc\n", 2), "f.rs:0\n    1 | a\n    2 | b\n---\n");
}

#[test]
fn render_wide_line_numbers() {
    let source = "x\n".repeat(100001);
    let r = record("f.rs", Span::LineRange { start: 99999, end: 100000 }, &[]);
    assert_eq!(
        render_record(&r, &source, 1),
        "f.rs:99999-100000\n99998 | x\n99999 | x\n100000 | x\n100001 | x\n---\n"
    );
}

#[test]
fn render_agrees_with_std_formatting() {
    let source = "alpha\n  beta\n\ngamma";
    let lines: Vec<&str> = source.lines().collect();
    let r = record("p/q.rs", Span::MultiLine { start_line: 2, start_col: 1, end_line: 3, end_col: 1 }, &["b"]);
    let mut expected = String::from("p/q.rs:2.1-3.1\n");
    for i in 0..4 {
        expected.push_str(&format!("{:>5} | {}\n", i + 1, lines[i]));
    }
    expected.push_str("---\nb\n");
    assert_eq!(render_record(&r, source, 1), expected);
}
