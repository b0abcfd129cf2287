use doksnet::partition::{ParseError, Partition, ResolveError, SourceText};

fn bounds(
    file_path: &str,
    start_line: Option<usize>,
    end_line: Option<usize>,
    start_col: Option<usize>,
    end_col: Option<usize>,
) -> Partition {
    Partition { file_path: file_path.to_string(), start_line, end_line, start_col, end_col }
}

fn text(s: &str) -> SourceText {
    SourceText::Text(s.to_string())
}

#[test]
fn test_parse_file_only() {
    let partition = Partition::parse("src/main.rs").unwrap();
    assert_eq!(partition.file_path, "src/main.rs");
    assert_eq!(partition.start_line, None);
    assert_eq!(partition.end_line, None);
    assert_eq!(partition.start_col, None);
    assert_eq!(partition.end_col, None);
}

#[test]
fn test_parse_with_line_range() {
    let partition = Partition::parse("src/main.rs:10-20").unwrap();
    assert_eq!(partition.file_path, "src/main.rs");
    assert_eq!(partition.start_line, Some(10));
    assert_eq!(partition.end_line, Some(20));
    assert_eq!(partition.start_col, None);
    assert_eq!(partition.end_col, None);
}

#[test]
fn test_parse_with_line_and_column_range() {
    let partition = Partition::parse("src/main.rs:10-20@5-15").unwrap();
    assert_eq!(partition.file_path, "src/main.rs");
    assert_eq!(partition.start_line, Some(10));
    assert_eq!(partition.end_line, Some(20));
    assert_eq!(partition.start_col, Some(5));
    assert_eq!(partition.end_col, Some(15));
}

#[test]
fn test_parse_single_line() {
    let partition = Partition::parse("README.md:42").unwrap();
    assert_eq!(partition.file_path, "README.md");
    assert_eq!(partition.start_line, Some(42));
    assert_eq!(partition.end_line, Some(42));
}

#[test]
fn test_parse_single_column() {
    let partition = Partition::parse("file.txt:10@5").unwrap();
    assert_eq!(partition.file_path, "file.txt");
    assert_eq!(partition.start_line, Some(10));
    assert_eq!(partition.end_line, Some(10));
    assert_eq!(partition.start_col, Some(5));
    assert_eq!(partition.end_col, Some(5));
}

#[test]
fn test_parse_with_empty_ranges() {
    let partition = Partition::parse("file.txt:@").unwrap();
    assert_eq!(partition.file_path, "file.txt");
    assert_eq!(partition.start_line, None);
    assert_eq!(partition.end_line, None);
    assert_eq!(partition.start_col, None);
    assert_eq!(partition.end_col, None);
}

#[test]
fn partition_test_parse_invalid_format() {
    let result = Partition::parse("");
    assert!(result.is_err());

    assert!(Partition::parse("file.txt:abc").is_err());
    assert!(Partition::parse("file.txt:10@abc").is_err());

    assert!(Partition::parse("file.txt:10-5").is_ok());
}

#[test]
fn parse_error_kinds() {
    assert_eq!(Partition::parse(""), Err(ParseError::InvalidReference));
    assert_eq!(Partition::parse(":1-2"), Err(ParseError::InvalidReference));
    assert_eq!(Partition::parse("  \t:3"), Err(ParseError::InvalidReference));
    assert_eq!(Partition::parse("f:1-2-3"), Err(ParseError::InvalidRange));
    assert_eq!(Partition::parse("f:1-"), Err(ParseError::InvalidRange));
    assert_eq!(Partition::parse("f:-1"), Err(ParseError::InvalidRange));
    assert_eq!(Partition::parse("f:1@2-x"), Err(ParseError::InvalidRange));
    assert_eq!(Partition::parse("f:1:2"), Err(ParseError::InvalidRange));
    assert_eq!(Partition::parse("f:18446744073709551616"), Err(ParseError::InvalidRange));
}

#[test]
fn parse_accepts_edge_numbers() {
    let p = Partition::parse("f:18446744073709551615").unwrap();
    assert_eq!(p.start_line, Some(usize::MAX));
    let p = Partition::parse("f:+3-007").unwrap();
    assert_eq!((p.start_line, p.end_line), (Some(3), Some(7)));
    let p = Partition::parse("f:@2-4").unwrap();
    assert_eq!((p.start_line, p.end_line, p.start_col, p.end_col), (None, None, Some(2), Some(4)));
    let p = Partition::parse("dir@x/f-1.rs:0").unwrap();
    assert_eq!(p.file_path, "dir@x/f-1.rs");
    assert_eq!((p.start_line, p.end_line), (Some(0), Some(0)));
}

#[test]
fn test_extract_content_entire_file() {
    let partition = bounds("test.txt", None, None, None, None);
    let content = partition.extract_content(&text("line1\nline2\nline3")).unwrap();
    assert_eq!(content, "line1\nline2\nline3");
}

#[test]
fn test_extract_content_line_range() {
    let partition = bounds("test.txt", Some(2), Some(3), None, None);
    let content = partition.extract_content(&text("line1\nline2\nline3\nline4")).unwrap();
    assert_eq!(content, "line2\nline3");
}

#[test]
fn test_extract_content_single_line() {
    let partition = bounds("test.txt", Some(2), Some(2), None, None);
    let content = partition.extract_content(&text("line1\nline2\nline3")).unwrap();
    assert_eq!(content, "line2");
}

#[test]
fn test_extract_content_with_columns() {
    let partition = bounds("test.txt", Some(1), Some(1), Some(7), Some(11));
    let content = partition.extract_content(&text("hello world\nrust programming")).unwrap();
    assert_eq!(content, "world");
}

#[test]
fn test_extract_content_multiline_with_columns() {
    let partition = bounds("test.txt", Some(1), Some(2), Some(7), Some(4));
    let source = text("hello world\nrust programming\ngreat language");
    let content = partition.extract_content(&source).unwrap();
    assert_eq!(content, "world\nrust");
}

#[test]
fn test_extract_content_file_not_found() {
    let partition = bounds("nonexistent.txt", None, None, None, None);
    assert!(partition.extract_content(&SourceText::Missing).is_err());
}

#[test]
fn test_extract_content_invalid_line_numbers() {
    let source = text("line1\nline2");

    let partition = bounds("test.txt", Some(0), Some(1), None, None);
    assert!(partition.extract_content(&source).is_err());

    let partition = bounds("test.txt", Some(1), Some(5), None, None);
    assert!(partition.extract_content(&source).is_err());

    let partition = bounds("test.txt", Some(2), Some(1), None, None);
    assert!(partition.extract_content(&source).is_err());
}

#[test]
fn test_to_string() {
    let partition = bounds("src/main.rs", Some(10), Some(20), Some(5), Some(15));
    assert_eq!(partition.to_string(), "src/main.rs:10-20@5-15");

    let partition = bounds("README.md", Some(5), Some(5), None, None);
    assert_eq!(partition.to_string(), "README.md:5");

    let partition = bounds("file.txt", None, None, None, None);
    assert_eq!(partition.to_string(), "file.txt");
}

#[test]
fn to_string_collapses_equal_columns() {
    let partition = bounds("a.rs", Some(3), Some(9), Some(4), Some(4));
    assert_eq!(partition.to_string(), "a.rs:3-9@4");
    let partition = bounds("a.rs", Some(0), Some(18446744073709551615), None, None);
    assert_eq!(partition.to_string(), "a.rs:0-18446744073709551615");
}

#[test]
fn round_trip_through_reference() {
    let cases = vec![
        bounds("src/main.rs", None, None, None, None),
        bounds("src/main.rs", Some(10), Some(20), None, None),
        bounds("src/main.rs", Some(7), Some(7), Some(1), Some(30)),
        bounds("a b/c@d-e.txt", Some(9), Some(2), Some(5), Some(5)),
        bounds("x", Some(0), Some(usize::MAX), Some(12), Some(3)),
    ];
    for p in cases {
        assert_eq!(Partition::parse(&p.to_string()), Ok(p.clone()));
    }
}

#[test]
fn scenario_whole_file() {
    let p = bounds("f.txt", None, None, None, None);
    assert_eq!(p.extract_content(&text("a\nb\nc")), Ok("a\nb\nc".to_string()));
    assert_eq!(p.extract_content(&text("a\nb\n")), Ok("a\nb\n".to_string()));
}

#[test]
fn scenario_line_range() {
    let p = bounds("f.txt", Some(2), Some(3), None, None);
    assert_eq!(p.extract_content(&text("a\nb\nc")), Ok("b\nc".to_string()));
}

#[test]
fn scenario_single_line_columns() {
    let p = Partition::parse("f.txt:1@7-11").unwrap();
    assert_eq!(p.extract_content(&text("hello world")), Ok("world".to_string()));
}

#[test]
fn scenario_multi_line_columns() {
    let p = Partition::parse("f.txt:1-2@7-4").unwrap();
    let source = text("hello world\nrust programming");
    assert_eq!(p.extract_content(&source), Ok("world\nrust".to_string()));
}

#[test]
fn scenario_missing_and_undecodable() {
    let p = bounds("nonexistent.txt", Some(1), Some(1), None, None);
    assert_eq!(p.extract_content(&SourceText::Missing), Err(ResolveError::FileNotFound));
    assert_eq!(p.extract_content(&SourceText::Undecodable), Err(ResolveError::DecodeError));
}

#[test]
fn line_bound_errors() {
    let source = text("a\nb\nc");
    let p = bounds("f", Some(0), Some(2), None, None);
    assert_eq!(p.extract_content(&source), Err(ResolveError::LineOutOfRange));
    let p = bounds("f", Some(1), Some(0), None, None);
    assert_eq!(p.extract_content(&source), Err(ResolveError::LineOutOfRange));
    let p = bounds("f", Some(3), Some(2), None, None);
    assert_eq!(p.extract_content(&source), Err(ResolveError::InvertedRange));
    let p = bounds("f", Some(2), Some(4), None, None);
    assert_eq!(p.extract_content(&source), Err(ResolveError::LineOutOfRange));
    let p = bounds("f", Some(5), Some(4), None, None);
    assert_eq!(p.extract_content(&source), Err(ResolveError::LineOutOfRange));
}

#[test]
fn column_bound_errors() {
    let source = text("hello\nhi\nthere");
    let p = bounds("f", Some(1), Some(1), Some(2), Some(6));
    assert_eq!(p.extract_content(&source), Err(ResolveError::ColumnOutOfRange));
    let p = bounds("f", Some(1), Some(1), Some(0), Some(3));
    assert_eq!(p.extract_content(&source), Err(ResolveError::ColumnOutOfRange));
    let p = bounds("f", Some(1), Some(1), Some(4), Some(2));
    assert_eq!(p.extract_content(&source), Err(ResolveError::InvertedRange));
    let p = bounds("f", Some(1), Some(2), Some(6), Some(1));
    assert_eq!(p.extract_content(&source), Err(ResolveError::ColumnOutOfRange));
    let p = bounds("f", Some(1), Some(2), Some(5), Some(3));
    assert_eq!(p.extract_content(&source), Err(ResolveError::ColumnOutOfRange));
    let p = bounds("f", Some(1), Some(3), Some(5), Some(5));
    assert_eq!(p.extract_content(&source), Ok("o\nhi\nthere".to_string()));
}

#[test]
fn columns_count_characters_not_bytes() {
    let p = bounds("f", Some(1), Some(1), Some(2), Some(3));
    assert_eq!(p.extract_content(&text("\u{e4}\u{4e16}\u{754c}!")), Ok("\u{4e16}\u{754c}".to_string()));
}

#[test]
fn line_endings_follow_str_lines() {
    let source = text("one\r\ntwo\r\nthree\n");
    let p = bounds("f", Some(1), Some(3), None, None);
    assert_eq!(p.extract_content(&source), Ok("one\ntwo\nthree".to_string()));
    let p = bounds("f", Some(4), Some(4), None, None);
    assert_eq!(p.extract_content(&source), Err(ResolveError::LineOutOfRange));
    let p = bounds("f", Some(2), Some(2), None, None);
    assert_eq!(p.extract_content(&text("a\n\nb")), Ok("".to_string()));
}

#[test]
fn test_partition_content_extraction() {
    let source = text("Line 1\nLine 2\nLine 3\nLine 4\nLine 5");
    let p = bounds("test.txt", Some(2), Some(2), None, None);
    assert_eq!(p.extract_content(&source).unwrap(), "Line 2");
    let p = bounds("test.txt", Some(2), Some(3), None, None);
    assert_eq!(p.extract_content(&source).unwrap(), "Line 2\nLine 3");
    let p = bounds("test.txt", Some(1), Some(5), None, None);
    assert!(p.extract_content(&source).is_ok());
    let p = bounds("test.txt", Some(1), Some(6), None, None);
    assert!(p.extract_content(&source).is_err());
}

#[test]
fn columns_without_lines_do_not_round_trip() {
    let p = Partition::parse("f:@2-4").unwrap();
    assert_eq!(p.to_string(), "f@2-4");
    let back = Partition::parse(&p.to_string()).unwrap();
    assert_eq!(back.file_path, "f@2-4");
    assert_eq!((back.start_col, back.end_col), (None, None));
}
