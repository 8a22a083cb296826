use cpx_core::ingest::{ingest, IngestError, IngestRequest};

#[test]
fn normalizes_line_endings_and_counts_lines() {
    let document = ingest(IngestRequest {
        source_name: "case.txt".to_owned(),
        contents: "line one\r\nline two\r\n".to_owned(),
    })
    .expect("expected successful ingest");

    assert_eq!(document.source_name, "case.txt");
    assert_eq!(document.contents, "line one\nline two");
    assert_eq!(document.line_count, 2);
}

#[test]
fn rejects_empty_input() {
    let error = ingest(IngestRequest {
        source_name: "case.txt".to_owned(),
        contents: "   \r\n\t".to_owned(),
    })
    .expect_err("expected empty input to fail");

    assert_eq!(error, IngestError::EmptyInput);
}

#[test]
fn rejects_completely_empty_input() {
    let error = ingest(IngestRequest { source_name: "empty.txt".to_owned(), contents: String::new() })
        .expect_err("expected empty input to fail");

    assert_eq!(error, IngestError::EmptyInput);
    assert_eq!(error.message(), "input was empty after normalization");
}

#[test]
fn trims_unicode_white_space_and_keeps_inner_lines() {
    let document = ingest(IngestRequest {
        source_name: "inner.txt".to_owned(),
        contents: "\u{3000}\n  first\n\n\u{00a0}second  \r\n\r\n\u{2003}".to_owned(),
    })
    .expect("expected successful ingest");

    assert_eq!(document.contents, "first\n\n\u{00a0}second");
    assert_eq!(document.line_count, 3);
}

#[test]
fn replaces_crlf_pairs_left_to_right() {
    let document = ingest(IngestRequest {
        source_name: "cr.txt".to_owned(),
        contents: "a\r\r\nb\rc".to_owned(),
    })
    .expect("expected successful ingest");

    assert_eq!(document.contents, "a\r\nb\rc");
    assert_eq!(document.line_count, 2);
}

#[test]
fn keeps_non_ascii_text_intact() {
    let document = ingest(IngestRequest {
        source_name: "unicode.txt".to_owned(),
        contents: "  Grüße — 東京 ✓  ".to_owned(),
    })
    .expect("expected successful ingest");

    assert_eq!(document.contents, "Grüße — 東京 ✓");
    assert_eq!(document.line_count, 1);
}

#[test]
fn ingested_contents_are_already_normalized() {
    let document = ingest(IngestRequest {
        source_name: "twice.txt".to_owned(),
        contents: "\t first line \r\n second line\n\n".to_owned(),
    })
    .expect("expected successful ingest");
    let again = ingest(IngestRequest {
        source_name: document.source_name.clone(),
        contents: document.contents.clone(),
    })
    .expect("expected successful ingest");

    assert_eq!(document.contents, "first line \r\n second line".replace("\r\n", "\n"));
    assert_eq!(again, document);
}
