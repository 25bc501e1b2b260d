use mdx::render::image::{png_dimensions, render_png_block_native};
use mdx::render::typst_block::{terminal_pixel_height, terminal_pixel_width, typst_ppi};
use mdx::term::{
    cell_size, find_bytes, forced_kitty, is_true_color, kitty_delete_all_images_escape,
    kitty_display_image_escape, kitty_reply_complete, kitty_reply_valid, osc_reply_complete,
    parse_osc_color_reply, parse_rgb_color, probe_kitty_by_brand, size_from_report, TermCaps,
    TermSize,
};

fn caps() -> TermCaps {
    TermCaps {
        kitty_graphics: true,
        true_color: true,
        cols: 80,
        rows: 24,
        pixel_width: 640,
        pixel_height: 384,
        cell_width: 8,
        cell_height: 16,
        fg_rgb: None,
        bg_rgb: None,
    }
}

fn png(width: u32, height: u32) -> Vec<u8> {
    let mut v = b"\x89PNG\r\n\x1a\n".to_vec();
    v.extend_from_slice(&[0, 0, 0, 13]);
    v.extend_from_slice(b"IHDR");
    v.extend_from_slice(&width.to_be_bytes());
    v.extend_from_slice(&height.to_be_bytes());
    v.extend_from_slice(&[8, 6, 0, 0, 0]);
    v
}

#[test]
fn rgb_colors() {
    assert_eq!(parse_rgb_color("rgb:ff/00/80"), Some((255, 0, 128)));
    assert_eq!(parse_rgb_color("rgb:ffff/0000/8080"), Some((255, 0, 128)));
    assert_eq!(parse_rgb_color("rgb:AB/cd/Ef"), Some((0xab, 0xcd, 0xef)));
    assert_eq!(parse_rgb_color("rgb:+f/00/00"), Some((15, 0, 0)));
    assert_eq!(parse_rgb_color("rgb:ff/00/80/extra"), Some((255, 0, 128)));
    assert_eq!(parse_rgb_color("rgb:ff/00"), None);
    assert_eq!(parse_rgb_color("rgb:ff/00/8"), None);
    assert_eq!(parse_rgb_color("rgb:fg/00/00"), None);
    assert_eq!(parse_rgb_color("rgb:-f/00/00"), None);
    assert_eq!(parse_rgb_color("rgba:ff/00/00"), None);
    assert_eq!(parse_rgb_color("#ff0000"), None);
    assert_eq!(parse_rgb_color("rgb:é0/00/00"), None);
    assert_eq!(parse_rgb_color(""), None);
}

#[test]
fn osc_replies() {
    assert_eq!(
        parse_osc_color_reply(b"\x1b]11;rgb:1e1e/2020/3030\x07"),
        Some((0x1e, 0x20, 0x30))
    );
    assert_eq!(parse_osc_color_reply(b"\x1b]10;rgb:ffff/ffff/ffff\x1b\\"), Some((255, 255, 255)));
    assert_eq!(parse_osc_color_reply(b"garbage\xff rgb:01/02/03"), Some((1, 2, 3)));
    assert_eq!(parse_osc_color_reply(b"\x1b]11;?\x07"), None);
    assert_eq!(parse_osc_color_reply(b""), None);
    assert!(osc_reply_complete(b"\x1b]11;rgb:00/00/00\x07"));
    assert!(osc_reply_complete(b"abc\x1b\\"));
    assert!(!osc_reply_complete(b"\x1b]11;rgb:00"));
}

#[test]
fn kitty_replies() {
    assert!(kitty_reply_valid(b"\x1b_Gi=1;OK\x1b\\"));
    assert!(!kitty_reply_valid(b"\x1b_Gi=1;OK"));
    assert!(!kitty_reply_valid(b"\x1b[?62c"));
    assert!(!kitty_reply_valid(b""));
    assert!(kitty_reply_complete(b"xx\x1b\\"));
    assert!(!kitty_reply_complete(b"\x1b_Gi=1"));
}

#[test]
fn kitty_detection_by_name_and_override() {
    assert!(probe_kitty_by_brand("xterm-kitty", ""));
    assert!(probe_kitty_by_brand("xterm-ghostty", ""));
    assert!(probe_kitty_by_brand("rio", ""));
    assert!(probe_kitty_by_brand("xterm-256color", "WezTerm"));
    assert!(probe_kitty_by_brand("", "otty"));
    assert!(probe_kitty_by_brand("", "ghostty"));
    assert!(probe_kitty_by_brand("", "kitty"));
    assert!(!probe_kitty_by_brand("xterm-256color", "Apple_Terminal"));
    assert!(!probe_kitty_by_brand("kitty", "xterm-kitty"));
    assert!(forced_kitty("1"));
    assert!(forced_kitty("yes"));
    assert!(forced_kitty(""));
    assert!(!forced_kitty("0"));
    assert!(!forced_kitty("false"));
    assert!(is_true_color("truecolor"));
    assert!(is_true_color("24bit"));
    assert!(!is_true_color("256"));
}

#[test]
fn find_first_occurrence() {
    assert_eq!(find_bytes(b"abcabc", b"bc"), Some(1));
    assert_eq!(find_bytes(b"abc", b""), Some(0));
    assert_eq!(find_bytes(b"ab", b"abc"), None);
    assert_eq!(find_bytes(b"aaab", b"ab"), Some(2));
}

#[test]
fn sizes() {
    let s = size_from_report(Some(TermSize { cols: 0, rows: 0, pixel_width: 800, pixel_height: 600 }));
    assert_eq!((s.cols, s.rows, s.pixel_width, s.pixel_height), (1, 1, 800, 600));
    let d = size_from_report(None);
    assert_eq!((d.cols, d.rows, d.pixel_width, d.pixel_height), (80, 24, 0, 0));
    assert_eq!(cell_size(TermSize { cols: 80, rows: 24, pixel_width: 640, pixel_height: 384 }), (8, 16));
    assert_eq!(cell_size(TermSize { cols: 80, rows: 24, pixel_width: 0, pixel_height: 0 }), (8, 16));
    assert_eq!(cell_size(TermSize { cols: 100, rows: 50, pixel_width: 50, pixel_height: 20 }), (1, 1));
    assert_eq!(cell_size(TermSize { cols: 100, rows: 40, pixel_width: 1000, pixel_height: 800 }), (10, 20));
}

#[test]
fn page_pixels() {
    assert_eq!(terminal_pixel_width(&caps()), 640);
    assert_eq!(terminal_pixel_height(&caps()), 384);
    let mut c = caps();
    c.pixel_width = 0;
    c.pixel_height = 0;
    assert_eq!(terminal_pixel_width(&c), 640);
    assert_eq!(terminal_pixel_height(&c), 384);
    c.cols = 10;
    c.rows = 5;
    assert_eq!(terminal_pixel_width(&c), 320);
    assert_eq!(terminal_pixel_height(&c), 240);
    c.cell_width = 0;
    c.cols = 400;
    assert_eq!(terminal_pixel_width(&c), 400);
}

#[test]
fn delete_escape() {
    assert_eq!(kitty_delete_all_images_escape(), b"\x1b_Gi=31,a=d,d=A\x1b\\".to_vec());
}

#[test]
fn image_escape_single_chunk() {
    let out = kitty_display_image_escape(b"hi", 7, 0);
    assert_eq!(out, b"\x1b_Gf=100,a=T,t=d,q=2,m=0,i=7,c=1;aGk=\x1b\\".to_vec());
    assert!(kitty_display_image_escape(b"", 1, 5).is_empty());
}

#[test]
fn image_escape_chunks() {
    let data = vec![0u8; 13000];
    let out = kitty_display_image_escape(&data, 42, 30);
    let text = String::from_utf8(out).unwrap();
    let frames: Vec<&str> = text.split("\x1b\\").filter(|f| !f.is_empty()).collect();
    assert_eq!(frames.len(), 2);
    assert!(frames[0].starts_with("\x1b_Gf=100,a=T,t=d,q=2,m=1,i=42,c=30;"));
    assert!(frames[1].starts_with("\x1b_Gf=100,a=T,t=d,q=2,m=0,i=42,c=30;"));
    let payload: String = frames.iter().map(|f| f.split_once(';').unwrap().1).collect();
    assert_eq!(payload.len(), 17336);
    assert_eq!(frames[0].split_once(';').unwrap().1.len(), 16384);
    assert!(payload.chars().all(|c| c == 'A' || c == '='));
}

#[test]
fn png_header() {
    assert_eq!(png_dimensions(&png(640, 480)), Some((640, 480)));
    assert_eq!(png_dimensions(&png(0x01020304, 7)), Some((0x01020304, 7)));
    let mut bad = png(10, 10);
    bad[0] = 0;
    assert_eq!(png_dimensions(&bad), None);
    let mut no_ihdr = png(10, 10);
    no_ihdr[12] = b'X';
    assert_eq!(png_dimensions(&no_ihdr), None);
    assert_eq!(png_dimensions(&png(10, 10)[..23]), None);
}

#[test]
fn png_block_fits_terminal() {
    let p = png(300, 200);
    let out = String::from_utf8(render_png_block_native(&p, &caps(), 3)).unwrap();
    assert!(out.starts_with("\x1b_Gf=100,a=T,t=d,q=2,m=0,i=3,c=38;"));
    assert!(out.ends_with("\x1b\\\n"));
    let wide = png(10_000, 200);
    let out = String::from_utf8(render_png_block_native(&wide, &caps(), 4)).unwrap();
    assert!(out.contains(",c=80;"));
    let mut narrow = caps();
    narrow.cols = 0;
    let out = String::from_utf8(render_png_block_native(&p, &narrow, 5)).unwrap();
    assert!(out.contains(",c=1;"));
    assert!(render_png_block_native(b"not a png", &caps(), 6).is_empty());
}

#[test]
fn ppi_setting() {
    assert_eq!(typst_ppi(None), 200);
    assert_eq!(typst_ppi(Some("300")), 300);
    assert_eq!(typst_ppi(Some("+300")), 300);
    assert_eq!(typst_ppi(Some("72")), 72);
    assert_eq!(typst_ppi(Some("600")), 600);
    assert_eq!(typst_ppi(Some("71")), 200);
    assert_eq!(typst_ppi(Some("601")), 200);
    assert_eq!(typst_ppi(Some("0300")), 300);
    assert_eq!(typst_ppi(Some("")), 200);
    assert_eq!(typst_ppi(Some("+")), 200);
    assert_eq!(typst_ppi(Some("-300")), 200);
    assert_eq!(typst_ppi(Some(" 300")), 200);
    assert_eq!(typst_ppi(Some("3x0")), 200);
    assert_eq!(typst_ppi(Some("99999999999")), 200);
    for v in ["0", "72", "300", "+5", "4294967295", "4294967296", "", "+", "1e3"] {
        let expected = v.parse::<u32>().ok().filter(|x| (72..=600).contains(x)).unwrap_or(200);
        assert_eq!(typst_ppi(Some(v)), expected);
    }
}
