use fors::line_mux::LineMux;

fn feed_all(mux: &mut LineMux, chunks: &[&[u8]]) -> Vec<Vec<u8>> {
    let mut lines = Vec::new();
    for chunk in chunks {
        lines.extend(mux.feed(chunk));
    }
    lines
}

#[test]
fn one_chunk_splits_into_lines() {
    let mut mux = LineMux::new();
    let lines = mux.feed(b"hello\nworld\n");
    assert_eq!(lines, vec![b"hello\n".to_vec(), b"world\n".to_vec()]);
    assert_eq!(mux.finish(), None);
}

#[test]
fn segmentation_is_chunking_independent() {
    let stream = b"first line\nsecond\nthird";
    let mut whole = LineMux::new();
    let mut whole_lines = whole.feed(stream);
    if let Some(tail) = whole.finish() {
        whole_lines.push(tail);
    }

    let mut split = LineMux::new();
    let mut split_lines = feed_all(&mut split, &[b"fir", b"st li", b"ne\nsec", b"ond\nthi", b"rd"]);
    if let Some(tail) = split.finish() {
        split_lines.push(tail);
    }

    let mut single: LineMux = LineMux::new();
    let mut single_lines = Vec::new();
    for b in stream.iter() {
        single_lines.extend(single.feed(&[*b]));
    }
    if let Some(tail) = single.finish() {
        single_lines.push(tail);
    }

    assert_eq!(whole_lines, split_lines);
    assert_eq!(whole_lines, single_lines);
    assert_eq!(
        whole_lines,
        vec![b"first line\n".to_vec(), b"second\n".to_vec(), b"third".to_vec()]
    );
}

#[test]
fn unterminated_tail_is_delivered_once() {
    let mut mux = LineMux::new();
    let lines = mux.feed(b"hello");
    assert!(lines.is_empty());
    assert_eq!(mux.finish(), Some(b"hello".to_vec()));
    assert_eq!(mux.finish(), None);
}

#[test]
fn empty_stream_emits_nothing() {
    let mut mux = LineMux::new();
    let lines = mux.feed(b"");
    assert!(lines.is_empty());
    assert_eq!(mux.finish(), None);
}

#[test]
fn carriage_returns_pass_through() {
    let mut mux = LineMux::new();
    let lines = mux.feed(b"a\r\nb\rc");
    assert_eq!(lines, vec![b"a\r\n".to_vec()]);
    assert_eq!(mux.finish(), Some(b"b\rc".to_vec()));
}

#[test]
fn partial_line_spans_many_feeds() {
    let mut mux = LineMux::new();
    assert!(mux.feed(b"ab").is_empty());
    assert!(mux.feed(b"cd").is_empty());
    let lines = mux.feed(b"ef\n");
    assert_eq!(lines, vec![b"abcdef\n".to_vec()]);
    assert_eq!(mux.finish(), None);
}

#[test]
fn newline_only_stream() {
    let mut mux = LineMux::new();
    let lines = mux.feed(b"\n\n");
    assert_eq!(lines, vec![b"\n".to_vec(), b"\n".to_vec()]);
    assert_eq!(mux.finish(), None);
}
