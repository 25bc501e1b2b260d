use mdx::pager::{
    display_current, handle_key, key_after_read, parse_key, read_key, Key, KeyAction, PagerState,
};
use mdx::term::TermCaps;

fn caps() -> TermCaps {
    TermCaps {
        kitty_graphics: true,
        true_color: true,
        cols: 80,
        rows: 24,
        pixel_width: 640,
        pixel_height: 384,
        cell_width: 8,
        cell_height: 16,
        fg_rgb: None,
        bg_rgb: None,
    }
}

/// A renderer for a document of `total` pages: page `i` renders as `p<i>`.
fn doc(total: usize) -> impl Fn(&Vec<u8>, &TermCaps, usize, usize) -> Vec<Vec<u8>> {
    move |_m: &Vec<u8>, _c: &TermCaps, start: usize, end: usize| {
        (start..=end.min(total)).map(|i| format!("p{}", i).into_bytes()).collect()
    }
}

fn page(s: &PagerState) -> Option<String> {
    s.current_page().map(|p| String::from_utf8(p.to_vec()).unwrap())
}

#[test]
fn new_state_is_empty() {
    let s = PagerState::new(b"# hi".to_vec(), caps());
    assert_eq!(s.len(), 0);
    assert!(!s.is_exhausted());
    assert_eq!(s.current(), 0);
    assert!(s.current_page().is_none());
    assert_eq!(s.progress(), (0, 1));
}

#[test]
fn loads_batches_lazily() {
    let r = doc(20);
    let mut s = PagerState::new(Vec::new(), caps());
    s.ensure_loaded(0, &r);
    assert_eq!(s.len(), 8);
    assert!(!s.is_exhausted());
    assert_eq!(page(&s).as_deref(), Some("p1"));
    s.ensure_loaded(9, &r);
    assert_eq!(s.len(), 16);
    s.ensure_loaded(17, &r);
    assert_eq!(s.len(), 20);
    assert!(s.is_exhausted());
}

#[test]
fn loaded_batch_is_not_rendered_again() {
    let mut s = PagerState::new(Vec::new(), caps());
    s.ensure_loaded(0, &doc(20));
    let fail = |_m: &Vec<u8>, _c: &TermCaps, _s: usize, _e: usize| -> Vec<Vec<u8>> {
        panic!("batch rendered twice")
    };
    s.ensure_loaded(5, &fail);
    assert_eq!(s.len(), 8);
}

#[test]
fn renderer_gets_one_based_batch_range() {
    let seen = std::cell::RefCell::new(Vec::new());
    let r = |_m: &Vec<u8>, _c: &TermCaps, start: usize, end: usize| -> Vec<Vec<u8>> {
        seen.borrow_mut().push((start, end));
        (start..=end).map(|i| vec![i as u8]).collect()
    };
    let mut s = PagerState::new(Vec::new(), caps());
    s.ensure_loaded(13, &r);
    assert_eq!(*seen.borrow(), vec![(9, 16)]);
    assert_eq!(s.len(), 16);
    assert_eq!(s.current_page(), None);
}

#[test]
fn short_document_is_exhausted_after_first_batch() {
    let mut s = PagerState::new(Vec::new(), caps());
    s.ensure_loaded(0, &doc(3));
    assert_eq!(s.len(), 3);
    assert!(s.is_exhausted());
}

#[test]
fn failed_render_leaves_nothing() {
    let none = |_m: &Vec<u8>, _c: &TermCaps, _s: usize, _e: usize| -> Vec<Vec<u8>> { Vec::new() };
    let mut s = PagerState::new(Vec::new(), caps());
    s.ensure_loaded(0, &none);
    assert_eq!(s.len(), 0);
    assert!(s.is_exhausted());
    assert!(!s.next_page(&none));
    assert_eq!(s.current(), 0);
}

#[test]
fn next_and_prev_walk_the_pages() {
    let r = doc(10);
    let mut s = PagerState::new(Vec::new(), caps());
    s.ensure_loaded(0, &r);
    assert!(!s.prev_page());
    for i in 1..10 {
        assert!(s.next_page(&r));
        assert_eq!(s.current(), i);
        assert_eq!(page(&s), Some(format!("p{}", i + 1)));
    }
    assert!(!s.next_page(&r));
    assert_eq!(s.current(), 9);
    assert!(s.is_exhausted());
    assert!(s.prev_page());
    assert_eq!(s.current(), 8);
}

#[test]
fn prev_undoes_next() {
    let r = doc(30);
    let mut s = PagerState::new(Vec::new(), caps());
    s.ensure_loaded(0, &r);
    s.go_to(6, &r);
    let before = s.current();
    assert!(s.next_page(&r));
    assert!(s.prev_page());
    assert_eq!(s.current(), before);
}

#[test]
fn go_to_stops_at_last_known_page() {
    let r = doc(5);
    let mut s = PagerState::new(Vec::new(), caps());
    s.go_to(3, &r);
    assert_eq!(s.current(), 3);
    s.go_to(40, &r);
    assert_eq!(s.current(), 4);
    s.go_to(0, &r);
    assert_eq!(s.current(), 0);
}

#[test]
fn go_to_last_renders_everything() {
    let r = doc(21);
    let mut s = PagerState::new(Vec::new(), caps());
    s.ensure_loaded(0, &r);
    s.go_to_last(&r);
    assert!(s.is_exhausted());
    assert_eq!(s.len(), 21);
    assert_eq!(s.current(), 20);
    assert_eq!(page(&s).as_deref(), Some("p21"));
}

#[test]
fn go_to_last_on_whole_batches() {
    let r = doc(16);
    let mut s = PagerState::new(Vec::new(), caps());
    s.go_to_last(&r);
    assert!(s.is_exhausted());
    assert_eq!(s.len(), 16);
    assert_eq!(s.current(), 15);
}

#[test]
fn progress_is_cursor_over_last_slot() {
    let r = doc(11);
    let mut s = PagerState::new(Vec::new(), caps());
    s.go_to_last(&r);
    s.go_to(5, &r);
    assert_eq!(s.progress(), (5, 10));
    let mut one = PagerState::new(Vec::new(), caps());
    one.ensure_loaded(0, &doc(1));
    assert_eq!(one.progress(), (0, 1));
}

#[test]
fn rerender_keeps_reading_position() {
    let r = doc(11);
    let mut s = PagerState::new(Vec::new(), caps());
    s.go_to_last(&r);
    s.go_to(7, &r);
    let (num, den) = s.progress();
    let mut again = PagerState::new(Vec::new(), caps());
    again.go_to_progress(num, den, &r);
    assert_eq!(again.current(), 7);
}

#[test]
fn progress_maps_to_nearest_page_of_new_length() {
    // Halfway through 11 pages (5 of 10) in a 4-page document: 1.5 rounds up to 2.
    let mut s = PagerState::new(Vec::new(), caps());
    s.go_to_progress(5, 10, &doc(4));
    assert_eq!(s.current(), 2);
    // One third of the way through 8 pages: 7/3 = 2.33 rounds to 2.
    let mut t = PagerState::new(Vec::new(), caps());
    t.go_to_progress(1, 3, &doc(8));
    assert_eq!(t.current(), 2);
    // The end stays the end.
    let mut u = PagerState::new(Vec::new(), caps());
    u.go_to_progress(10, 10, &doc(3));
    assert_eq!(u.current(), 2);
}

#[test]
fn parse_key_plain_bytes() {
    for (b, k) in [
        (b' ', Key::Quit),
        (b'q', Key::Quit),
        (b'Q', Key::Quit),
        (b'j', Key::Next),
        (b'n', Key::Next),
        (b'\n', Key::Next),
        (b'\r', Key::Next),
        (b'b', Key::Prev),
        (b'k', Key::Prev),
        (b'p', Key::Prev),
        (b'g', Key::First),
        (b'G', Key::Last),
        (b'x', Key::Unknown),
    ] {
        assert_eq!(parse_key(&[b, b'z']), Some((k, 1)));
    }
    assert_eq!(parse_key(&[]), None);
}

#[test]
fn parse_key_arrows() {
    assert_eq!(parse_key(b"\x1b[A"), Some((Key::Prev, 3)));
    assert_eq!(parse_key(b"\x1b[B"), Some((Key::Next, 3)));
    assert_eq!(parse_key(b"\x1b[C"), Some((Key::Next, 3)));
    assert_eq!(parse_key(b"\x1b[D"), Some((Key::Prev, 3)));
    assert_eq!(parse_key(b"\x1b[H"), Some((Key::First, 3)));
    assert_eq!(parse_key(b"\x1b[F"), Some((Key::Last, 3)));
    assert_eq!(parse_key(b"\x1bOA"), Some((Key::Prev, 3)));
    assert_eq!(parse_key(b"\x1bOB"), Some((Key::Next, 3)));
    assert_eq!(parse_key(b"\x1bOH"), Some((Key::First, 3)));
    assert_eq!(parse_key(b"\x1bOF"), Some((Key::Last, 3)));
    assert_eq!(parse_key(b"\x1bOZ"), Some((Key::Unknown, 3)));
    assert_eq!(parse_key(b"\x1b[1;2A"), Some((Key::Prev, 6)));
    assert_eq!(parse_key(b"\x1b[1~"), Some((Key::First, 4)));
    assert_eq!(parse_key(b"\x1b[4~"), Some((Key::Last, 4)));
    assert_eq!(parse_key(b"\x1b[5~"), Some((Key::Unknown, 4)));
}

#[test]
fn parse_key_incomplete_and_unknown_escapes() {
    assert_eq!(parse_key(b"\x1b"), None);
    assert_eq!(parse_key(b"\x1b["), None);
    assert_eq!(parse_key(b"\x1b[1;2"), None);
    assert_eq!(parse_key(b"\x1bx"), Some((Key::Unknown, 2)));
    assert_eq!(parse_key(b"\x1bO"), Some((Key::Unknown, 2)));
    // Home/End are decided by the sequence itself, not by what follows it.
    assert_eq!(parse_key(b"\x1b[1~j"), Some((Key::First, 4)));
    assert_eq!(parse_key(b"\x1b[4~q"), Some((Key::Last, 4)));
    assert_eq!(parse_key(b"\x1b[14~"), Some((Key::Unknown, 5)));
}

#[test]
fn read_key_consumes_one_key() {
    let mut buf = b"j\x1b[Bq".to_vec();
    assert_eq!(read_key(&mut buf), Some(Key::Next));
    assert_eq!(buf, b"\x1b[Bq".to_vec());
    assert_eq!(read_key(&mut buf), Some(Key::Next));
    assert_eq!(buf, b"q".to_vec());
    assert_eq!(read_key(&mut buf), Some(Key::Quit));
    assert!(buf.is_empty());
    let mut partial = b"\x1b[".to_vec();
    assert_eq!(read_key(&mut partial), None);
    assert_eq!(partial, b"\x1b[".to_vec());
}

#[test]
fn handle_key_actions() {
    let r = doc(12);
    let mut s = PagerState::new(Vec::new(), caps());
    s.ensure_loaded(0, &r);
    assert_eq!(handle_key(Key::Quit, &mut s, &r), KeyAction::Quit);
    assert_eq!(handle_key(Key::Unknown, &mut s, &r), KeyAction::Stay);
    assert_eq!(handle_key(Key::Prev, &mut s, &r), KeyAction::Stay);
    assert_eq!(handle_key(Key::Next, &mut s, &r), KeyAction::Redraw);
    assert_eq!(s.current(), 1);
    assert_eq!(handle_key(Key::Last, &mut s, &r), KeyAction::Redraw);
    assert_eq!(s.current(), 11);
    assert_eq!(handle_key(Key::Next, &mut s, &r), KeyAction::Stay);
    assert_eq!(handle_key(Key::First, &mut s, &r), KeyAction::Redraw);
    assert_eq!(s.current(), 0);
}

#[test]
fn display_frame_with_unknown_total() {
    let r = doc(20);
    let mut s = PagerState::new(Vec::new(), caps());
    s.ensure_loaded(0, &r);
    let out = display_current(&s, false);
    let mut expected = b"\x1b[2J\x1b[H\x1b_Gi=31,a=d,d=A\x1b\\".to_vec();
    expected.extend_from_slice(
        "mdx: page 1 / ?  (↓/→: next, ↑/←: prev, g/G: first/last, space/q: quit)\r\n".as_bytes(),
    );
    expected.extend_from_slice(b"p1");
    assert_eq!(out, expected);
}

#[test]
fn display_frame_with_known_total_and_watch() {
    let r = doc(12);
    let mut s = PagerState::new(Vec::new(), caps());
    s.go_to_last(&r);
    let out = String::from_utf8(display_current(&s, true)).unwrap();
    assert!(out.contains("mdx: page 12 / 12  ("));
    assert!(out.ends_with("quit) [watch]\r\np12"));
}

#[test]
fn display_frame_without_page() {
    let s = PagerState::new(Vec::new(), caps());
    let out = String::from_utf8(display_current(&s, false)).unwrap();
    assert!(out.ends_with("\r\n(page not loaded)\r\n"));
    assert!(out.contains("mdx: page 1 / ?"));
}

#[test]
fn end_of_input_quits() {
    let mut buf = b"\x1b[".to_vec();
    assert_eq!(key_after_read(&mut buf, b""), Some(Key::Quit));
    assert_eq!(buf, b"\x1b[".to_vec());
    assert_eq!(key_after_read(&mut buf, b"1"), None);
    assert_eq!(buf, b"\x1b[1".to_vec());
    assert_eq!(key_after_read(&mut buf, b"~g"), Some(Key::First));
    assert_eq!(buf, b"g".to_vec());
}

#[test]
fn finished_pager_is_not_rendered_again() {
    let mut s = PagerState::new(Vec::new(), caps());
    s.go_to_last(&doc(5));
    assert!(s.is_exhausted());
    s.go_to(1, &doc(5));
    let fail = |_m: &Vec<u8>, _c: &TermCaps, _s: usize, _e: usize| -> Vec<Vec<u8>> {
        panic!("finished pager rendered again")
    };
    s.go_to_last(&fail);
    assert_eq!(s.current(), 4);
    let (num, den) = s.progress();
    s.go_to(2, &fail);
    let (num2, den2) = s.progress();
    s.go_to_progress(num2, den2, &fail);
    assert_eq!(s.current(), 2);
    assert_eq!((num, den), (4, 4));
    assert_eq!(s.len(), 5);
}

#[test]
fn go_to_last_asks_for_consecutive_batches() {
    let seen = std::cell::RefCell::new(Vec::new());
    let r = |_m: &Vec<u8>, _c: &TermCaps, start: usize, end: usize| -> Vec<Vec<u8>> {
        seen.borrow_mut().push((start, end));
        (start..=end.min(12)).map(|i| vec![i as u8]).collect()
    };
    let mut s = PagerState::new(Vec::new(), caps());
    s.ensure_loaded(0, &r);
    s.go_to_last(&r);
    assert_eq!(*seen.borrow(), vec![(1, 8), (9, 16)]);
    assert_eq!(s.len(), 12);
    assert_eq!(s.current(), 11);
    assert!(s.is_exhausted());
}
