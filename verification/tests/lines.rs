use breezy::lines::{chunks_to_lines, split_lines, ChunksToLinesIterator, LineStep};

fn v(s: &[u8]) -> Vec<u8> {
    s.to_vec()
}

#[test]
fn chunks_to_lines_joins_and_splits() {
    let chunks = vec![v(b"fo"), v(b"o\nbar\nba"), v(b""), v(b"z")];
    assert_eq!(chunks_to_lines(&chunks), vec![v(b"foo\n"), v(b"bar\n"), v(b"baz")]);
}

#[test]
fn chunks_to_lines_keeps_whole_lines() {
    let chunks = vec![v(b"foo\n"), v(b"bar\n")];
    assert_eq!(chunks_to_lines(&chunks), vec![v(b"foo\n"), v(b"bar\n")]);
}

#[test]
fn chunks_to_lines_empty_input() {
    let none: Vec<Vec<u8>> = Vec::new();
    assert_eq!(chunks_to_lines(&none), Vec::<Vec<u8>>::new());
    assert_eq!(chunks_to_lines(&vec![v(b""), v(b"")]), Vec::<Vec<u8>>::new());
}

#[test]
fn chunks_to_lines_blank_lines() {
    let chunks = vec![v(b"\n\n"), v(b"a\n\n")];
    assert_eq!(chunks_to_lines(&chunks), vec![v(b"\n"), v(b"\n"), v(b"a\n"), v(b"\n")]);
}

#[test]
fn chunking_does_not_change_lines() {
    let whole = chunks_to_lines(&vec![v(b"one\ntwo\nthree")]);
    let bytewise: Vec<Vec<u8>> = b"one\ntwo\nthree".iter().map(|b| vec![*b]).collect();
    assert_eq!(chunks_to_lines(&bytewise), whole);
}

#[test]
fn split_lines_of_bytes() {
    assert_eq!(split_lines(b"a\nb\r\nc"), vec![v(b"a\n"), v(b"b\r\n"), v(b"c")]);
    assert_eq!(split_lines(b""), Vec::<Vec<u8>>::new());
    assert_eq!(split_lines(b"\n"), vec![v(b"\n")]);
}

#[test]
fn splitter_steps() {
    let mut it = ChunksToLinesIterator::new();
    assert!(matches!(it.resume(), LineStep::NeedChunk));
    match it.feed(Some(v(b"ab"))) {
        LineStep::NeedChunk => {}
        _ => panic!("expected a request for a chunk"),
    }
    match it.feed(Some(v(b"c\nd\ne"))) {
        LineStep::Line(l) => assert_eq!(l, v(b"abc\n")),
        _ => panic!("expected a line"),
    }
    match it.resume() {
        LineStep::Line(l) => assert_eq!(l, v(b"d\n")),
        _ => panic!("expected a line"),
    }
    assert!(matches!(it.resume(), LineStep::NeedChunk));
    match it.feed(None) {
        LineStep::Line(l) => assert_eq!(l, v(b"e")),
        _ => panic!("expected the last line"),
    }
    assert!(matches!(it.feed(None), LineStep::Exhausted));
}

#[test]
fn splitter_returns_a_whole_chunk_that_is_one_line() {
    let mut it = ChunksToLinesIterator::new();
    match it.feed(Some(v(b"line\n"))) {
        LineStep::Line(l) => assert_eq!(l, v(b"line\n")),
        _ => panic!("expected a line"),
    }
    assert!(matches!(it.resume(), LineStep::NeedChunk));
    assert!(matches!(it.feed(Some(Vec::new())), LineStep::NeedChunk));
    assert!(matches!(it.feed(None), LineStep::Exhausted));
}
