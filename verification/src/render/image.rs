//! PNG helpers: reading a PNG's size and showing it in the terminal.

use crate::term::{image_frames, base64_standard, kitty_display_image_escape, TermCaps};
use vstd::prelude::*;

verus! {

/// The big-endian number in four bytes.
pub open spec fn be_u32(a: u8, b: u8, c: u8, d: u8) -> u32 {
    (a as int * 16777216 + b as int * 65536 + c as int * 256 + d as int) as u32
}

/// Width and height from a PNG's header: the 8-byte signature, then the
/// `IHDR` chunk whose first two fields are the big-endian width and height.
pub open spec fn png_dimensions_spec(png: Seq<u8>) -> Option<(u32, u32)> {
    if png.len() < 24 || png.take(8) != seq![137u8, 80u8, 78u8, 71u8, 13u8, 10u8, 26u8, 10u8]
        || png.subrange(12, 16) != seq![73u8, 72u8, 68u8, 82u8] {
        None
    } else {
        Some(
            (
                be_u32(png[16], png[17], png[18], png[19]),
                be_u32(png[20], png[21], png[22], png[23]),
            ),
        )
    }
}

fn be_u32_at(s: &[u8], i: usize) -> (v: u32)
    requires
        i + 4 <= s@.len(),
    ensures
        v == be_u32(s@[i as int], s@[i + 1], s@[i + 2], s@[i + 3]),
{
    let a = s[i] as u32;
    let b = s[i + 1] as u32;
    let c = s[i + 2] as u32;
    let d = s[i + 3] as u32;
    a * 16777216 + b * 65536 + c * 256 + d
}

/// Parses width and height from a PNG blob.
pub fn png_dimensions(png_data: &[u8]) -> (r: Option<(u32, u32)>)
    ensures
        r == png_dimensions_spec(png_data@),
{
    if png_data.len() < 24 {
        return None;
    }
    let sig = png_data[0] == 137 && png_data[1] == 80 && png_data[2] == 78 && png_data[3] == 71
        && png_data[4] == 13 && png_data[5] == 10 && png_data[6] == 26 && png_data[7] == 10;
    assert(sig == (png_data@.take(8) =~= seq![137u8, 80u8, 78u8, 71u8, 13u8, 10u8, 26u8, 10u8]));
    let ihdr = png_data[12] == 73 && png_data[13] == 72 && png_data[14] == 68 && png_data[15]
        == 82;
    assert(ihdr == (png_data@.subrange(12, 16) =~= seq![73u8, 72u8, 68u8, 82u8]));
    if !sig || !ihdr {
        return None;
    }
    Some((be_u32_at(png_data, 16), be_u32_at(png_data, 20)))
}

/// Columns a picture `img_w` pixels wide takes: its width in cells,
/// rounded up and at least 1, but no wider than the terminal.
pub open spec fn image_cols(img_w: u32, caps: TermCaps) -> u16 {
    let cell_w: int = if caps.cell_width >= 1 {
        caps.cell_width as int
    } else {
        1
    };
    let natural: int = (img_w as int + cell_w - 1) / cell_w;
    let natural1: int = if natural >= 1 {
        natural
    } else {
        1
    };
    (if natural1 <= caps.cols as int {
        natural1
    } else {
        caps.cols as int
    }) as u16
}

/// A picture never gets more columns than the terminal has, and gets at
/// least one when the terminal has any.
pub proof fn lemma_image_fits(img_w: u32, caps: TermCaps)
    ensures
        image_cols(img_w, caps) <= caps.cols,
        caps.cols >= 1 ==> image_cols(img_w, caps) >= 1,
{
}

/// The four big-endian bytes of `v`.
pub open spec fn be_bytes(v: u32) -> Seq<u8> {
    seq![
        (v / 16777216) as u8,
        ((v / 65536) % 256) as u8,
        ((v / 256) % 256) as u8,
        (v % 256) as u8,
    ]
}

/// A picture as wide as its columns allow: when it is narrower than the
/// terminal, it takes the fewest columns that hold its width (at least
/// one), so one column less would be too narrow.
pub proof fn lemma_image_cols_cover(img_w: u32, caps: TermCaps)
    requires
        caps.cell_width >= 1,
        img_w >= 1,
        img_w <= caps.cols * caps.cell_width,
    ensures
        (image_cols(img_w, caps) - 1) * caps.cell_width < img_w <= image_cols(img_w, caps)
            * caps.cell_width,
{
    let cw = caps.cell_width as int;
    let w = img_w as int;
    let n = (w + cw - 1) / cw;
    assert((n - 1) * cw < w <= n * cw && n >= 1) by (nonlinear_arith)
        requires
            cw >= 1,
            w >= 1,
            n == (w + cw - 1) / cw,
    ;
    assert(n <= caps.cols) by (nonlinear_arith)
        requires
            cw >= 1,
            w <= caps.cols * cw,
            (n - 1) * cw < w,
    ;
}

/// A PNG's header gives back the width and height written into it, in
/// that order, and the picture is then shown as wide as its width asks.
pub proof fn lemma_png_header(
    w: u32,
    h: u32,
    length: Seq<u8>,
    rest: Seq<u8>,
    caps: TermCaps,
    image_id: u32,
)
    requires
        length.len() == 4,
    ensures
        ({
            let png = seq![137u8, 80u8, 78u8, 71u8, 13u8, 10u8, 26u8, 10u8] + length + seq![
                73u8,
                72u8,
                68u8,
                82u8,
            ] + be_bytes(w) + be_bytes(h) + rest;
            &&& png_dimensions_spec(png) == Some((w, h))
            &&& png_block(png, caps, image_id) == image_frames(
                base64_standard(png),
                image_id as nat,
                if image_cols(w, caps) >= 1 {
                    image_cols(w, caps) as nat
                } else {
                    1
                },
            ).push(10u8)
        }),
{
    let png = seq![137u8, 80u8, 78u8, 71u8, 13u8, 10u8, 26u8, 10u8] + length + seq![
        73u8,
        72u8,
        68u8,
        82u8,
    ] + be_bytes(w) + be_bytes(h) + rest;
    assert(png.take(8) =~= seq![137u8, 80u8, 78u8, 71u8, 13u8, 10u8, 26u8, 10u8]);
    assert(png.subrange(12, 16) =~= seq![73u8, 72u8, 68u8, 82u8]);
    assert(png[16] == be_bytes(w)[0] && png[17] == be_bytes(w)[1] && png[18] == be_bytes(w)[2]
        && png[19] == be_bytes(w)[3]);
    assert(png[20] == be_bytes(h)[0] && png[21] == be_bytes(h)[1] && png[22] == be_bytes(h)[2]
        && png[23] == be_bytes(h)[3]);
    lemma_be_round_trip(w);
    lemma_be_round_trip(h);
}

proof fn lemma_be_round_trip(v: u32)
    ensures
        be_u32(be_bytes(v)[0], be_bytes(v)[1], be_bytes(v)[2], be_bytes(v)[3]) == v,
{
    assert(v / 16777216 < 256) by (bit_vector);
    assert((v / 16777216) * 16777216 + ((v / 65536) % 256) * 65536 + ((v / 256) % 256) * 256 + v
        % 256 == v) by (bit_vector);
}

/// What `render_png_block_native` writes: nothing for bytes that are no
/// PNG, else the graphics commands that show it `image_cols` wide under
/// `image_id`, then a newline.
pub open spec fn png_block(png: Seq<u8>, caps: TermCaps, image_id: u32) -> Seq<u8> {
    match png_dimensions_spec(png) {
        None => Seq::empty(),
        Some((w, h)) => {
            let cols = image_cols(w, caps);
            image_frames(
                base64_standard(png),
                image_id as nat,
                if cols >= 1 {
                    cols as nat
                } else {
                    1
                },
            ).push(10u8)
        },
    }
}

/// Shows a PNG as a Kitty graphics image sized to the terminal, under the
/// image id `image_id`.  Only the column count is sent; the terminal
/// derives the rows from the picture's aspect ratio.
pub fn render_png_block_native(png: &[u8], caps: &TermCaps, image_id: u32) -> (out: Vec<u8>)
    requires
        png@.len() <= usize::MAX / 4,
    ensures
        out@ == png_block(png@, *caps, image_id),
        png_dimensions_spec(png@) is Some ==> base64_standard(png@).len() == 4 * ((png@.len()
            + 2) / 3) && out@.len() > 0,
{
    let (img_w, _img_h) = match png_dimensions(png) {
        Some(d) => d,
        None => {
            return Vec::new();
        },
    };
    let cell_w: u32 = if caps.cell_width >= 1 {
        caps.cell_width as u32
    } else {
        1
    };
    let q = img_w / cell_w;
    let r = img_w % cell_w;
    assert(r != 0 ==> q < u32::MAX) by (nonlinear_arith)
        requires
            cell_w >= 1,
            q == img_w / cell_w,
            r == img_w % cell_w,
            img_w <= u32::MAX,
    ;
    let natural = q + if r != 0 {
        1u32
    } else {
        0u32
    };
    proof {
        assert(natural as int == (img_w as int + cell_w as int - 1) / cell_w as int) by (nonlinear_arith)
            requires
                cell_w >= 1,
                natural as int == img_w as int / cell_w as int + if img_w as int % cell_w as int
                    != 0 {
                    1int
                } else {
                    0int
                },
        ;
    }
    let natural1 = if natural >= 1 {
        natural
    } else {
        1
    };
    let cols = (if natural1 <= caps.cols as u32 {
        natural1
    } else {
        caps.cols as u32
    }) as u16;
    let mut out = kitty_display_image_escape(png, image_id, cols);
    out.push(10u8);
    out
}

} // verus!
