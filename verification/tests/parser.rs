use mdx::parser::{Parser, RenderCmd};

fn feed_all(p: &mut Parser, input: &[u8]) -> Vec<Vec<u8>> {
    let mut out = Vec::new();
    for &b in input {
        if let Some(RenderCmd::MarkdownBlock(block)) = p.feed(b) {
            out.push(block);
        }
    }
    out
}

#[test]
fn flushes_on_blank_line() {
    let mut p = Parser::new();
    let mut out = Vec::new();
    for b in b"hello\n\nworld".iter().copied() {
        if let Some(cmd) = p.feed(b) {
            out.push(cmd);
        }
    }
    assert!(matches!(out[0], RenderCmd::MarkdownBlock(_)));
}

#[test]
fn block_holds_the_paragraph_and_its_blank_line() {
    let mut p = Parser::new();
    let blocks = feed_all(&mut p, b"hello\n\nworld");
    assert_eq!(blocks, vec![b"hello\n\n".to_vec()]);
    match p.flush() {
        Some(RenderCmd::MarkdownBlock(rest)) => assert_eq!(rest, b"world".to_vec()),
        None => panic!("pending bytes lost"),
    }
    assert!(p.flush().is_none());
}

#[test]
fn carriage_returns_are_dropped() {
    let mut p = Parser::new();
    let blocks = feed_all(&mut p, b"a\r\n\r\nb");
    assert_eq!(blocks, vec![b"a\n\n".to_vec()]);
    match p.drain_pending() {
        Some(RenderCmd::MarkdownBlock(rest)) => assert_eq!(rest, b"b".to_vec()),
        None => panic!("pending bytes lost"),
    }
}

#[test]
fn newline_after_a_blank_line_is_its_own_block() {
    let mut p = Parser::new();
    let blocks = feed_all(&mut p, b"a\n\n\nb\n");
    assert_eq!(blocks, vec![b"a\n\n".to_vec(), b"\n".to_vec()]);
    match p.drain_pending() {
        Some(RenderCmd::MarkdownBlock(rest)) => assert_eq!(rest, b"b\n".to_vec()),
        None => panic!("pending bytes lost"),
    }
}

#[test]
fn drained_newline_still_counts_toward_a_blank_line() {
    let mut p = Parser::new();
    assert!(feed_all(&mut p, b"a\n").is_empty());
    assert!(p.drain_pending().is_some());
    let blocks = feed_all(&mut p, b"\n");
    assert_eq!(blocks, vec![b"\n".to_vec()]);
}

#[test]
fn nothing_is_lost_or_reordered() {
    let input: &[u8] = b"# Title\r\n\r\nSome text\nmore text\n\n\n- item\n\n```\ncode\n```";
    let mut p = Parser::new();
    let blocks = feed_all(&mut p, input);
    let mut joined: Vec<u8> = blocks.concat();
    if let Some(RenderCmd::MarkdownBlock(rest)) = p.flush() {
        joined.extend_from_slice(&rest);
    }
    let expected: Vec<u8> = input.iter().copied().filter(|&b| b != b'\r').collect();
    assert_eq!(joined, expected);
    for block in &blocks {
        assert_eq!(*block.last().unwrap(), b'\n');
        let body = &block[..block.len() - 1];
        assert!(!body.windows(2).any(|w| w == b"\n\n"));
    }
}

#[test]
fn empty_parser_has_nothing_pending() {
    let mut p = Parser::new();
    assert!(p.drain_pending().is_none());
    assert!(p.flush().is_none());
}

#[test]
fn feed_bytes_matches_byte_by_byte() {
    let input: &[u8] = b"one\n\ntwo\r\nthree\n\n\nfour";
    let mut a = Parser::new();
    let by_byte = feed_all(&mut a, input);
    let mut b = Parser::new();
    let mut chunked = Vec::new();
    for chunk in input.chunks(3) {
        for RenderCmd::MarkdownBlock(block) in b.feed_bytes(chunk) {
            chunked.push(block);
        }
    }
    assert_eq!(by_byte, chunked);
    assert_eq!(chunked, vec![b"one\n\n".to_vec(), b"two\nthree\n\n".to_vec(), b"\n".to_vec()]);
    match (a.flush(), b.flush()) {
        (Some(RenderCmd::MarkdownBlock(x)), Some(RenderCmd::MarkdownBlock(y))) => {
            assert_eq!(x, y);
            assert_eq!(y, b"four".to_vec());
        }
        _ => panic!("pending bytes lost"),
    }
}
