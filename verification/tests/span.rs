use ptcr::{
    context_window, decimal_string, line_bounds, parse_decimal, parse_header, span_from_groups,
    span_to_string, string_of, to_chars, ParseError, Span,
};

fn chars(s: &str) -> Vec<char> {
    s.chars().collect()
}

#[test]
fn span_to_string_each_shape() {
    assert_eq!(span_to_string(&Span::File), "*");
    assert_eq!(span_to_string(&Span::Line(12)), "12");
    assert_eq!(span_to_string(&Span::Point { line: 3, col: 40 }), "3.40");
    assert_eq!(span_to_string(&Span::LineRange { start: 5, end: 105 }), "5-105");
    assert_eq!(
        span_to_string(&Span::ColumnRange { line: 2, start_col: 3, end_col: 9 }),
        "2.3-2.9"
    );
    assert_eq!(
        span_to_string(&Span::MultiLine { start_line: 1, start_col: 2, end_line: 3, end_col: 4 }),
        "1.2-3.4"
    );
}

#[test]
fn span_to_string_of_zero_and_of_the_largest() {
    assert_eq!(span_to_string(&Span::Line(0)), "0");
    assert_eq!(span_to_string(&Span::Line(usize::MAX)), usize::MAX.to_string());
    assert_eq!(
        span_to_string(&Span::Point { line: 0, col: usize::MAX }),
        format!("0.{}", usize::MAX)
    );
}

#[test]
fn span_text_reads_back() {
    let spans = [
        Span::File,
        Span::Line(0),
        Span::Line(1),
        Span::Line(10),
        Span::Line(usize::MAX),
        Span::Point { line: 9, col: 10 },
        Span::LineRange { start: 99, end: 100 },
        Span::LineRange { start: 7, end: 3 },
        Span::ColumnRange { line: 1000, start_col: 0, end_col: 65535 },
        Span::MultiLine { start_line: 1, start_col: 0, end_line: 2, end_col: 0 },
    ];
    for span in spans {
        let line = format!("dir/file.rs:{}", span_to_string(&span));
        assert_eq!(parse_header(&line), Ok(Some(("dir/file.rs".to_string(), span))));
    }
}

#[test]
fn multi_line_on_one_line_reads_back_as_column_range() {
    let span = Span::MultiLine { start_line: 4, start_col: 1, end_line: 4, end_col: 2 };
    let line = format!("f:{}", span_to_string(&span));
    assert_eq!(line, "f:4.1-4.2");
    assert_eq!(
        parse_header(&line),
        Ok(Some(("f".to_string(), Span::ColumnRange { line: 4, start_col: 1, end_col: 2 })))
    );
}

#[test]
fn span_from_groups_each_case() {
    assert_eq!(span_from_groups(4, None, None), Ok(Span::Line(4)));
    assert_eq!(span_from_groups(4, Some(2), None), Ok(Span::Point { line: 4, col: 2 }));
    assert_eq!(
        span_from_groups(4, None, Some((6, None))),
        Ok(Span::LineRange { start: 4, end: 6 })
    );
    assert_eq!(
        span_from_groups(4, None, Some((4, None))),
        Ok(Span::LineRange { start: 4, end: 4 })
    );
    assert_eq!(
        span_from_groups(4, Some(1), Some((4, Some(3)))),
        Ok(Span::ColumnRange { line: 4, start_col: 1, end_col: 3 })
    );
    assert_eq!(
        span_from_groups(4, Some(1), Some((5, Some(3)))),
        Ok(Span::MultiLine { start_line: 4, start_col: 1, end_line: 5, end_col: 3 })
    );
    assert_eq!(span_from_groups(4, Some(1), Some((5, None))), Err(ParseError::MalformedSpan));
    assert_eq!(span_from_groups(4, None, Some((5, Some(3)))), Err(ParseError::MalformedSpan));
}

#[test]
fn error_messages() {
    assert_eq!(ParseError::MalformedSpan.message(), "invalid span");
    assert_eq!(
        ParseError::NumericOverflow.message(),
        "number too large to fit in target type"
    );
}

#[test]
fn parse_decimal_values() {
    assert_eq!(parse_decimal(&chars("0")), Some(0));
    assert_eq!(parse_decimal(&chars("7")), Some(7));
    assert_eq!(parse_decimal(&chars("0042")), Some(42));
    assert_eq!(parse_decimal(&chars("1234567890")), Some(1234567890));
    assert_eq!(parse_decimal(&chars(&usize::MAX.to_string())), Some(usize::MAX));
}

#[test]
fn parse_decimal_refuses() {
    assert_eq!(parse_decimal(&chars("")), None);
    assert_eq!(parse_decimal(&chars("+1")), None);
    assert_eq!(parse_decimal(&chars("-1")), None);
    assert_eq!(parse_decimal(&chars("1 ")), None);
    assert_eq!(parse_decimal(&chars("1a")), None);
    assert_eq!(parse_decimal(&chars("\u{661}")), None);
    assert_eq!(parse_decimal(&chars(&format!("{}0", usize::MAX))), None);
    let mut above = chars(&usize::MAX.to_string());
    let last = above.len() - 1;
    above[last] = char::from_digit(above[last].to_digit(10).unwrap() + 1, 10).unwrap();
    assert_eq!(parse_decimal(&above), None);
}

#[test]
fn decimal_string_agrees_with_std() {
    for n in [0usize, 1, 9, 10, 11, 99, 100, 101, 12345, 99999, 100000, usize::MAX - 1, usize::MAX] {
        assert_eq!(decimal_string(n), n.to_string());
        assert_eq!(parse_decimal(&chars(&decimal_string(n))), Some(n));
    }
}

#[test]
fn strings_and_chars() {
    assert_eq!(to_chars("a\u{e9}\u{4e2d}\n"), vec!['a', '\u{e9}', '\u{4e2d}', '\n']);
    assert_eq!(to_chars(""), Vec::<char>::new());
    assert_eq!(string_of(&['x', '\u{1f600}', 'y']), "x\u{1f600}y");
    assert_eq!(string_of(&[]), "");
}

#[test]
fn line_bounds_each_shape() {
    assert_eq!(line_bounds(&Span::File, 10), (1, 10));
    assert_eq!(line_bounds(&Span::File, 0), (1, 0));
    assert_eq!(line_bounds(&Span::Line(4), 10), (4, 4));
    assert_eq!(line_bounds(&Span::Point { line: 4, col: 80 }, 10), (4, 4));
    assert_eq!(line_bounds(&Span::LineRange { start: 2, end: 6 }, 10), (2, 6));
    assert_eq!(line_bounds(&Span::ColumnRange { line: 3, start_col: 1, end_col: 2 }, 10), (3, 3));
    assert_eq!(
        line_bounds(&Span::MultiLine { start_line: 2, start_col: 9, end_line: 5, end_col: 1 }, 10),
        (2, 5)
    );
}

#[test]
fn line_bounds_hold_the_end_down() {
    assert_eq!(line_bounds(&Span::Line(11), 10), (11, 10));
    assert_eq!(line_bounds(&Span::LineRange { start: 8, end: 20 }, 10), (8, 10));
    assert_eq!(line_bounds(&Span::LineRange { start: 0, end: usize::MAX }, 3), (0, 3));
    assert_eq!(line_bounds(&Span::Line(10), 10), (10, 10));
}

#[test]
fn context_window_values() {
    assert_eq!(context_window(&Span::Line(1), 3, 5), (0, 3));
    assert_eq!(context_window(&Span::Line(5), 10, 0), (4, 5));
    assert_eq!(context_window(&Span::Line(5), 10, 2), (2, 7));
    assert_eq!(context_window(&Span::LineRange { start: 3, end: 4 }, 10, 1), (1, 5));
    assert_eq!(context_window(&Span::File, 10, 0), (0, 10));
    assert_eq!(context_window(&Span::File, 10, 3), (0, 10));
    assert_eq!(context_window(&Span::Line(0), 3, 0), (0, 0));
    assert_eq!(context_window(&Span::Line(0), 3, 2), (0, 2));
    assert_eq!(context_window(&Span::Line(9), 3, 0), (8, 3));
    assert_eq!(context_window(&Span::Line(2), 3, usize::MAX), (0, 3));
    assert_eq!(context_window(&Span::Line(usize::MAX), usize::MAX, usize::MAX), (0, usize::MAX));
}
