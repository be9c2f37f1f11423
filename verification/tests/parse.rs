use std::path::PathBuf;

use ptcr::{parse, parse_header, text_lines, ParseError, Record, Span};

fn record(path: &str, span: Span, body: &[&str]) -> Record {
    Record {
        path: path.to_string(),
        span,
        body: body.iter().map(|line| line.to_string()).collect(),
    }
}

#[test]
fn parse_single_record() {
    let input = "src/main.rs:1\nhello";
    let recs = parse(input).unwrap();
    assert_eq!(recs.len(), 1);
    assert_eq!(PathBuf::from(&recs[0].path), PathBuf::from("src/main.rs"));
    assert_eq!(recs[0].span, Span::Line(1));
    assert_eq!(recs[0].body, vec!["hello".to_string()]);
}

#[test]
fn parse_empty_input() {
    assert_eq!(parse("").unwrap(), Vec::<Record>::new());
    assert_eq!(parse("\n\n").unwrap(), Vec::<Record>::new());
}

#[test]
fn body_lines_accumulate_in_order() {
    let recs = parse("a.rs:1\nx\ny\nb.rs:2\nz").unwrap();
    assert_eq!(
        recs,
        vec![
            record("a.rs", Span::Line(1), &["x", "y"]),
            record("b.rs", Span::Line(2), &["z"]),
        ]
    );
}

#[test]
fn lines_before_first_header_are_ignored() {
    let recs = parse("garbage\na.rs:*\nbody").unwrap();
    assert_eq!(recs, vec![record("a.rs", Span::File, &["body"])]);
}

#[test]
fn colon_lines_that_are_no_headers_are_text() {
    let recs = parse("note: before\na.rs:3\nnote: see b.rs:4 too\nhttp://x.y:80\n a.rs:5\na.rs:5 \nC:\\x.rs:1\n:7\nb.rs:\nb.rs:1.\nb.rs:-2\nb.rs:1-\nb.rs:1..2\nb.rs:1-2-3\nb.rs:**\nb.rs:+1\nb.rs:1.2.3")
        .unwrap();
    assert_eq!(
        recs,
        vec![record(
            "a.rs",
            Span::Line(3),
            &[
                "note: see b.rs:4 too",
                "http://x.y:80",
                " a.rs:5",
                "a.rs:5 ",
                "C:\\x.rs:1",
                ":7",
                "b.rs:",
                "b.rs:1.",
                "b.rs:-2",
                "b.rs:1-",
                "b.rs:1..2",
                "b.rs:1-2-3",
                "b.rs:**",
                "b.rs:+1",
                "b.rs:1.2.3",
            ]
        )]
    );
}

#[test]
fn all_six_shapes() {
    let recs = parse("f:*\nf:7\nf:7.8\nf:7-9\nf:7.1-7.4\nf:7.1-9.4").unwrap();
    let spans: Vec<Span> = recs.iter().map(|r| r.span).collect();
    assert_eq!(
        spans,
        vec![
            Span::File,
            Span::Line(7),
            Span::Point { line: 7, col: 8 },
            Span::LineRange { start: 7, end: 9 },
            Span::ColumnRange { line: 7, start_col: 1, end_col: 4 },
            Span::MultiLine { start_line: 7, start_col: 1, end_line: 9, end_col: 4 },
        ]
    );
    for r in &recs {
        assert_eq!(r.path, "f");
        assert!(r.body.is_empty());
    }
}

#[test]
fn column_range_on_one_line() {
    assert_eq!(
        parse_header("f.rs:2.3-2.9"),
        Ok(Some(("f.rs".to_string(), Span::ColumnRange { line: 2, start_col: 3, end_col: 9 })))
    );
    assert_eq!(
        parse_header("f.rs:02.3-2.9"),
        Ok(Some(("f.rs".to_string(), Span::ColumnRange { line: 2, start_col: 3, end_col: 9 })))
    );
    assert_eq!(
        parse_header("f.rs:2.3-3.9"),
        Ok(Some((
            "f.rs".to_string(),
            Span::MultiLine { start_line: 2, start_col: 3, end_line: 3, end_col: 9 }
        )))
    );
}

#[test]
fn mixed_columns_are_rejected() {
    assert_eq!(parse("f.rs:1.2-3"), Err(ParseError::MalformedSpan));
    assert_eq!(parse("f.rs:1-2.3"), Err(ParseError::MalformedSpan));
    assert_eq!(parse_header("f.rs:1.2-3"), Err(ParseError::MalformedSpan));
    assert_eq!(parse_header("f.rs:1-2.3"), Err(ParseError::MalformedSpan));
}

#[test]
fn malformed_header_aborts_the_whole_parse() {
    assert_eq!(parse("a.rs:1\nfine\nb.rs:1.2-3\nc.rs:4\n"), Err(ParseError::MalformedSpan));
}

#[test]
fn first_error_wins() {
    let big = format!("{}0", usize::MAX);
    let input = format!("a.rs:1-2.3\nb.rs:{}\n", big);
    assert_eq!(parse(&input), Err(ParseError::MalformedSpan));
    let input = format!("b.rs:{}\na.rs:1-2.3\n", big);
    assert_eq!(parse(&input), Err(ParseError::NumericOverflow));
}

#[test]
fn numbers_up_to_the_machine_word() {
    let max = format!("f.rs:{}", usize::MAX);
    assert_eq!(parse_header(&max), Ok(Some(("f.rs".to_string(), Span::Line(usize::MAX)))));
    let padded = format!("f.rs:000{}.0", usize::MAX);
    assert_eq!(
        parse_header(&padded),
        Ok(Some(("f.rs".to_string(), Span::Point { line: usize::MAX, col: 0 })))
    );
}

#[test]
fn numeric_overflow_is_an_error() {
    let big = format!("{}0", usize::MAX);
    assert_eq!(parse(&format!("f.rs:{}", big)), Err(ParseError::NumericOverflow));
    assert_eq!(parse(&format!("f.rs:1.{}", big)), Err(ParseError::NumericOverflow));
    assert_eq!(parse(&format!("f.rs:1-{}", big)), Err(ParseError::NumericOverflow));
    assert_eq!(parse(&format!("f.rs:1.2-3.{}", big)), Err(ParseError::NumericOverflow));
    assert_eq!(parse_header("f.rs:99999999999999999999999999"), Err(ParseError::NumericOverflow));
}

#[test]
fn overflow_is_reported_before_the_shape() {
    let big = format!("{}0", usize::MAX);
    assert_eq!(parse(&format!("f.rs:1.2-{}", big)), Err(ParseError::NumericOverflow));
    assert_eq!(parse(&format!("f.rs:{}-2.3", big)), Err(ParseError::NumericOverflow));
}

#[test]
fn header_needs_a_path_without_white_space() {
    assert_eq!(parse_header("a b.rs:1"), Ok(None));
    assert_eq!(parse_header("a\tb.rs:1"), Ok(None));
    assert_eq!(parse_header("a\u{a0}b.rs:1"), Ok(None));
    assert_eq!(parse_header("a\u{3000}b.rs:1"), Ok(None));
    assert_eq!(parse_header("a\u{2003}b.rs:1"), Ok(None));
    assert_eq!(parse_header("a\u{85}b.rs:1"), Ok(None));
    assert_eq!(parse_header(":1"), Ok(None));
    assert_eq!(parse_header("a.rs"), Ok(None));
    assert_eq!(parse_header(""), Ok(None));
    assert_eq!(
        parse_header("d\u{e9}j\u{e0}/\u{4e2d}.rs:1"),
        Ok(Some(("d\u{e9}j\u{e0}/\u{4e2d}.rs".to_string(), Span::Line(1))))
    );
    assert_eq!(parse_header("a\u{200b}b:*"), Ok(Some(("a\u{200b}b".to_string(), Span::File))));
}

#[test]
fn digits_are_the_ascii_digits() {
    assert_eq!(parse_header("f.rs:\u{661}"), Ok(None));
    assert_eq!(parse_header("f.rs:1.\u{ff12}"), Ok(None));
}

#[test]
fn body_lines_are_kept_verbatim() {
    let recs = parse("a.rs:1\n  indented  \n\n\ttab\t\nlast ").unwrap();
    assert_eq!(recs, vec![record("a.rs", Span::Line(1), &["  indented  ", "", "\ttab\t", "last "])]);
}

#[test]
fn same_header_twice_gives_two_records() {
    let recs = parse("a.rs:1\nx\na.rs:1\ny\n").unwrap();
    assert_eq!(
        recs,
        vec![record("a.rs", Span::Line(1), &["x"]), record("a.rs", Span::Line(1), &["y"])]
    );
}

#[test]
fn line_endings() {
    let recs = parse("a.rs:1\r\nx\r\ny\r\r\nz\r").unwrap();
    assert_eq!(recs, vec![record("a.rs", Span::Line(1), &["x", "y\r", "z\r"])]);
    let recs = parse("a.rs:1\r").unwrap();
    assert_eq!(recs, Vec::<Record>::new());
}

#[test]
fn text_lines_agree_with_std() {
    let inputs = [
        "",
        "\n",
        "a",
        "a\n",
        "a\nb",
        "a\n\nb\n",
        "a\r\nb\r\n",
        "a\rb\n",
        "a\r",
        "\r\n",
        "\r",
        "a\r\r\n",
        "\n\r\n\r",
        "d\u{e9}j\u{e0}\n\u{4e2d}\u{6587}\r\n",
    ];
    for input in inputs {
        let expected: Vec<String> = input.lines().map(|l| l.to_string()).collect();
        assert_eq!(text_lines(input), expected, "lines of {:?}", input);
    }
}

#[test]
fn text_lines_exact() {
    assert_eq!(text_lines("a\r\nb\n\nc"), vec!["a", "b", "", "c"]);
}
