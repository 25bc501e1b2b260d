//! Terminal capabilities and the escape sequences the viewer sends.

use vstd::prelude::*;
use vstd::string::StringSliceAdditionalSpecFns;
use crate::text::{append_bytes, append_decimal, decimal};

verus! {

/// What the viewer knows about the terminal it draws on.
#[derive(Clone, Copy, Debug)]
pub struct TermCaps {
    pub kitty_graphics: bool,
    pub true_color: bool,
    pub cols: u16,
    pub rows: u16,
    pub pixel_width: u16,
    pub pixel_height: u16,
    pub cell_width: u16,
    pub cell_height: u16,
    pub fg_rgb: Option<(u8, u8, u8)>,
    pub bg_rgb: Option<(u8, u8, u8)>,
}

/// The terminal's size in cells and in pixels.
#[derive(Clone, Copy, Debug)]
pub struct TermSize {
    pub cols: u16,
    pub rows: u16,
    pub pixel_width: u16,
    pub pixel_height: u16,
}

/// The escape sequence that asks a Kitty-protocol terminal to drop every
/// stored image: `ESC _ Gi=31,a=d,d=A ESC \`.
pub open spec fn delete_images_escape() -> Seq<u8> {
    seq![
        27u8,
        95u8,
        71u8,
        105u8,
        61u8,
        51u8,
        49u8,
        44u8,
        97u8,
        61u8,
        100u8,
        44u8,
        100u8,
        61u8,
        65u8,
        27u8,
        92u8,
    ]
}

/// Delete all images from the terminal's graphics cache.
pub fn kitty_delete_all_images_escape() -> (e: Vec<u8>)
    ensures
        e@ == delete_images_escape(),
{
    let e = vec![
        27u8,
        95u8,
        71u8,
        105u8,
        61u8,
        51u8,
        49u8,
        44u8,
        97u8,
        61u8,
        100u8,
        44u8,
        100u8,
        61u8,
        65u8,
        27u8,
        92u8,
    ];
    assert(e@ =~= delete_images_escape());
    e
}

/// The size to use given what the terminal reported: at least one column
/// and one row, or 80x24 cells of unknown pixel size when it reported
/// nothing.
pub open spec fn size_spec(reported: Option<TermSize>) -> TermSize {
    match reported {
        Some(ws) => TermSize {
            cols: if ws.cols >= 1 {
                ws.cols
            } else {
                1
            },
            rows: if ws.rows >= 1 {
                ws.rows
            } else {
                1
            },
            pixel_width: ws.pixel_width,
            pixel_height: ws.pixel_height,
        },
        None => TermSize { cols: 80, rows: 24, pixel_width: 0, pixel_height: 0 },
    }
}

/// The terminal size from what the window-size query reported (`None`
/// when the query failed).
pub fn size_from_report(reported: Option<TermSize>) -> (size: TermSize)
    ensures
        size == size_spec(reported),
{
    match reported {
        Some(ws) => TermSize {
            cols: if ws.cols >= 1 {
                ws.cols
            } else {
                1
            },
            rows: if ws.rows >= 1 {
                ws.rows
            } else {
                1
            },
            pixel_width: ws.pixel_width,
            pixel_height: ws.pixel_height,
        },
        None => TermSize { cols: 80, rows: 24, pixel_width: 0, pixel_height: 0 },
    }
}

/// Cell size in pixels: the pixel size over the cell count (at least 1),
/// or 8x16 when the terminal did not report pixels.
pub open spec fn cell_size_spec(size: TermSize) -> (u16, u16) {
    (
        if size.pixel_width > 0 && size.cols > 0 {
            if size.pixel_width / size.cols >= 1 {
                (size.pixel_width / size.cols) as u16
            } else {
                1
            }
        } else {
            8
        },
        if size.pixel_height > 0 && size.rows > 0 {
            if size.pixel_height / size.rows >= 1 {
                (size.pixel_height / size.rows) as u16
            } else {
                1
            }
        } else {
            16
        },
    )
}

/// The size of one character cell in pixels.
pub fn cell_size(size: TermSize) -> (c: (u16, u16))
    ensures
        c == cell_size_spec(size),
{
    let cw = if size.pixel_width > 0 && size.cols > 0 {
        let q = size.pixel_width / size.cols;
        if q >= 1 {
            q
        } else {
            1
        }
    } else {
        8
    };
    let ch = if size.pixel_height > 0 && size.rows > 0 {
        let q = size.pixel_height / size.rows;
        if q >= 1 {
            q
        } else {
            1
        }
    } else {
        16
    };
    (cw, ch)
}

/// The value of an ASCII hexadecimal digit.
pub open spec fn hex_value(b: u8) -> Option<u8> {
    if 48 <= b <= 57 {
        Some((b - 48) as u8)
    } else if 97 <= b <= 102 {
        Some((b - 87) as u8)
    } else if 65 <= b <= 70 {
        Some((b - 55) as u8)
    } else {
        None
    }
}

/// A color channel: the first two bytes of `field` read as a base-16
/// number (a leading `+` is allowed, leaving one digit); `None` when
/// there are fewer than two bytes or they are no such number.
pub open spec fn channel(field: Seq<u8>) -> Option<u8> {
    if field.len() < 2 {
        None
    } else if field[0] == 43 {
        hex_value(field[1])
    } else {
        match (hex_value(field[0]), hex_value(field[1])) {
            (Some(h), Some(l)) => Some((16 * h + l) as u8),
            _ => None,
        }
    }
}

/// Index of the first `/` at or after `i`, or the length when there is
/// none.
pub open spec fn slash_from(s: Seq<u8>, i: int) -> int
    decreases s.len() - i,
{
    if i >= s.len() {
        s.len() as int
    } else if s[i] == 47 {
        i
    } else {
        slash_from(s, i + 1)
    }
}

/// The color in an `rgb:RR/GG/BB` specification: the first three
/// `/`-separated fields after the `rgb:` prefix, each read as a channel.
pub open spec fn rgb_spec(s: Seq<u8>) -> Option<(u8, u8, u8)> {
    if s.len() < 4 || s.take(4) != seq![114u8, 103u8, 98u8, 58u8] {
        None
    } else {
        let r = s.skip(4);
        let i1 = slash_from(r, 0);
        let i2 = slash_from(r, i1 + 1);
        let i3 = slash_from(r, i2 + 1);
        if i1 >= r.len() || i2 >= r.len() {
            None
        } else {
            match (
                channel(r.subrange(0, i1)),
                channel(r.subrange(i1 + 1, i2)),
                channel(r.subrange(i2 + 1, i3)),
            ) {
                (Some(a), Some(b), Some(c)) => Some((a, b, c)),
                _ => None,
            }
        }
    }
}

proof fn lemma_slash_from_bounds(s: Seq<u8>, i: int)
    requires
        0 <= i,
    ensures
        i <= slash_from(s, i) || (i > s.len() && slash_from(s, i) == s.len()),
        slash_from(s, i) <= s.len(),
        slash_from(s, i) < s.len() ==> s[slash_from(s, i)] == 47,
    decreases s.len() - i,
{
    if i < s.len() && s[i] != 47 {
        lemma_slash_from_bounds(s, i + 1);
    }
}

fn hex_value_exec(b: u8) -> (v: Option<u8>)
    ensures
        v == hex_value(b),
{
    if 48 <= b && b <= 57 {
        Some(b - 48)
    } else if 97 <= b && b <= 102 {
        Some(b - 87)
    } else if 65 <= b && b <= 70 {
        Some(b - 55)
    } else {
        None
    }
}

/// Reads the channel in `s[lo..hi]`.
fn channel_at(s: &[u8], lo: usize, hi: usize) -> (v: Option<u8>)
    requires
        lo <= hi <= s@.len(),
    ensures
        v == channel(s@.subrange(lo as int, hi as int)),
{
    if hi - lo < 2 {
        return None;
    }
    let a = s[lo];
    let b = s[lo + 1];
    if a == 43 {
        return hex_value_exec(b);
    }
    match (hex_value_exec(a), hex_value_exec(b)) {
        (Some(h), Some(l)) => Some(16 * h + l),
        _ => None,
    }
}

/// Index of the first `/` at or after `i`, or the length.
fn slash_from_exec(s: &[u8], i: usize) -> (j: usize)
    requires
        i <= s@.len(),
    ensures
        j == slash_from(s@, i as int),
{
    let mut j = i;
    while j < s.len()
        invariant
            i <= j <= s@.len(),
            slash_from(s@, i as int) == slash_from(s@, j as int),
        decreases s@.len() - j,
    {
        if s[j] == 47 {
            return j;
        }
        j = j + 1;
    }
    j
}

/// Reads the color specification that starts at `start`.
fn rgb_at(s: &[u8], start: usize) -> (c: Option<(u8, u8, u8)>)
    requires
        start <= s@.len(),
    ensures
        c == rgb_spec(s@.skip(start as int)),
{
    let ghost t = s@.skip(start as int);
    let n = s.len();
    if n - start < 4 || s[start] != 114 || s[start + 1] != 103 || s[start + 2] != 98 || s[start
        + 3] != 58 {
        proof {
            if t.len() >= 4 {
                assert(t.take(4)[0] == s@[start as int]);
                assert(t.take(4)[1] == s@[start + 1]);
                assert(t.take(4)[2] == s@[start + 2]);
                assert(t.take(4)[3] == s@[start + 3]);
            }
        }
        return None;
    }
    assert(t.take(4) =~= seq![114u8, 103u8, 98u8, 58u8]);
    let b = start + 4;
    let ghost r = t.skip(4);
    assert(r =~= s@.skip(b as int));
    let i1 = slash_from_exec(s, b);
    proof {
        lemma_slash_from_bounds(s@, b as int);
        lemma_slash_shift(s@, b as int, b as int);
    }
    if i1 >= n {
        return None;
    }
    let i2 = slash_from_exec(s, i1 + 1);
    proof {
        lemma_slash_from_bounds(s@, i1 + 1);
        lemma_slash_shift(s@, b as int, i1 + 1);
    }
    if i2 >= n {
        return None;
    }
    let i3 = slash_from_exec(s, i2 + 1);
    proof {
        lemma_slash_from_bounds(s@, i2 + 1);
        lemma_slash_shift(s@, b as int, i2 + 1);
        assert(r.subrange(0, i1 - b) =~= s@.subrange(b as int, i1 as int));
        assert(r.subrange(i1 - b + 1, i2 - b) =~= s@.subrange(i1 + 1, i2 as int));
        assert(r.subrange(i2 - b + 1, i3 - b) =~= s@.subrange(i2 + 1, i3 as int));
    }
    let c1 = channel_at(s, b, i1);
    let c2 = channel_at(s, i1 + 1, i2);
    let c3 = channel_at(s, i2 + 1, i3);
    match (c1, c2, c3) {
        (Some(x), Some(y), Some(z)) => Some((x, y, z)),
        _ => None,
    }
}

/// Searching for `/` in a suffix gives the same place, shifted.
proof fn lemma_slash_shift(s: Seq<u8>, b: int, i: int)
    requires
        0 <= b <= i <= s.len(),
    ensures
        slash_from(s.skip(b), i - b) == slash_from(s, i) - b,
    decreases s.len() - i,
{
    if i < s.len() && s[i] != 47 {
        lemma_slash_shift(s, b, i + 1);
    }
}

/// Parses a color in the `rgb:RR/GG/BB` form terminals use.
pub fn parse_rgb_color(value: &str) -> (c: Option<(u8, u8, u8)>)
    ensures
        c == rgb_spec(value.spec_bytes()),
{
    let bytes = value.as_bytes();
    assert(bytes@.skip(0) =~= bytes@);
    rgb_at(bytes, 0)
}

/// `pat` occurs in `s` at index `i`.
pub open spec fn occurs_at(s: Seq<u8>, pat: Seq<u8>, i: int) -> bool {
    0 <= i && i + pat.len() <= s.len() && s.subrange(i, i + pat.len()) == pat
}

/// `pat` occurs somewhere in `s`.
pub open spec fn contains_bytes(s: Seq<u8>, pat: Seq<u8>) -> bool {
    exists|i: int| occurs_at(s, pat, i)
}

/// Index of the first occurrence of `pat` in `s`, if any.
pub fn find_bytes(s: &[u8], pat: &[u8]) -> (r: Option<usize>)
    ensures
        match r {
            Some(i) => occurs_at(s@, pat@, i as int) && forall|j: int|
                0 <= j < i ==> !occurs_at(s@, pat@, j),
            None => !contains_bytes(s@, pat@),
        },
{
    let n = s.len();
    let m = pat.len();
    if m > n {
        return None;
    }
    let mut i: usize = 0;
    while i <= n - m
        invariant
            m <= n,
            n == s@.len(),
            m == pat@.len(),
            forall|j: int| 0 <= j < i ==> !occurs_at(s@, pat@, j),
        decreases n - m + 1 - i,
    {
        let mut k: usize = 0;
        while k < m && s[i + k] == pat[k]
            invariant
                i + m <= n,
                k <= m,
                n == s@.len(),
                m == pat@.len(),
                s@.subrange(i as int, i + k) =~= pat@.take(k as int),
            decreases m - k,
        {
            proof {
                assert(s@.subrange(i as int, i + k + 1) =~= s@.subrange(i as int, i + k).push(
                    s@[i + k],
                ));
                assert(pat@.take(k + 1) =~= pat@.take(k as int).push(pat@[k as int]));
            }
            k = k + 1;
        }
        if k == m {
            assert(pat@.take(m as int) =~= pat@);
            return Some(i);
        }
        proof {
            if occurs_at(s@, pat@, i as int) {
                assert(s@.subrange(i as int, i + m)[k as int] == s@[i + k]);
            }
        }
        i = i + 1;
    }
    proof {
        assert forall|j: int| occurs_at(s@, pat@, j) implies false by {
            assert(0 <= j < i);
        }
    }
    None
}

/// Whether `s` holds exactly the bytes of `lit`.
fn is_literal(s: &[u8], lit: &str) -> (b: bool)
    ensures
        b == (s@ == lit.spec_bytes()),
{
    let l = lit.as_bytes();
    if s.len() != l.len() {
        return false;
    }
    let mut i: usize = 0;
    while i < s.len()
        invariant
            s@.len() == l@.len(),
            l@ == lit.spec_bytes(),
            i <= s@.len(),
            s@.take(i as int) =~= l@.take(i as int),
        decreases s@.len() - i,
    {
        if s[i] != l[i] {
            assert(s@[i as int] != l@[i as int]);
            assert(s@ != l@);
            return false;
        }
        i = i + 1;
    }
    assert(s@ =~= s@.take(i as int));
    assert(l@ =~= l@.take(i as int));
    true
}

/// Whether a `MDX_FORCE_KITTY` value turns Kitty graphics on: anything
/// but `0` and `false` does.
pub fn forced_kitty(value: &str) -> (on: bool)
    ensures
        on == !(value.spec_bytes() == "0".spec_bytes() || value.spec_bytes()
            == "false".spec_bytes()),
{
    let v = value.as_bytes();
    !(is_literal(v, "0") || is_literal(v, "false"))
}

/// Whether a `COLORTERM` value announces 24-bit color.
pub fn is_true_color(colorterm: &str) -> (b: bool)
    ensures
        b == (colorterm.spec_bytes() == "truecolor".spec_bytes() || colorterm.spec_bytes()
            == "24bit".spec_bytes()),
{
    let v = colorterm.as_bytes();
    is_literal(v, "truecolor") || is_literal(v, "24bit")
}

/// Terminals known to speak the Kitty graphics protocol, by `TERM` and by
/// `TERM_PROGRAM`.
pub open spec fn known_kitty_terminal(term: Seq<u8>, program: Seq<u8>) -> bool {
    ||| term == "xterm-kitty".spec_bytes()
    ||| term == "xterm-ghostty".spec_bytes()
    ||| term == "rio".spec_bytes()
    ||| program == "kitty".spec_bytes()
    ||| program == "ghostty".spec_bytes()
    ||| program == "rio".spec_bytes()
    ||| program == "WezTerm".spec_bytes()
    ||| program == "otty".spec_bytes()
}

/// Whether the `TERM` and `TERM_PROGRAM` values name a terminal known to
/// support Kitty graphics.
pub fn probe_kitty_by_brand(term: &str, program: &str) -> (b: bool)
    ensures
        b == known_kitty_terminal(term.spec_bytes(), program.spec_bytes()),
{
    let t = term.as_bytes();
    let p = program.as_bytes();
    if is_literal(t, "xterm-kitty") || is_literal(t, "xterm-ghostty") || is_literal(t, "rio") {
        return true;
    }
    is_literal(p, "kitty") || is_literal(p, "ghostty") || is_literal(p, "rio") || is_literal(
        p,
        "WezTerm",
    ) || is_literal(p, "otty")
}

/// `ESC \`, the string terminator.
pub open spec fn st() -> Seq<u8> {
    seq![27u8, 92u8]
}

/// Whether a reply to a graphics query is complete (it holds a string
/// terminator).
pub fn kitty_reply_complete(reply: &[u8]) -> (b: bool)
    ensures
        b == contains_bytes(reply@, st()),
{
    let pat = [27u8, 92u8];
    assert(pat@ =~= st());
    find_bytes(reply, &pat).is_some()
}

/// Whether a reply to the graphics query shows Kitty graphics support: it
/// holds `ESC _ G`, a string terminator and `Gi=`.
pub fn kitty_reply_valid(reply: &[u8]) -> (b: bool)
    ensures
        b == (reply@.len() > 0 && contains_bytes(reply@, seq![27u8, 95u8, 71u8])
            && contains_bytes(reply@, st()) && contains_bytes(reply@, seq![71u8, 105u8, 61u8])),
{
    if reply.len() == 0 {
        return false;
    }
    let apc = [27u8, 95u8, 71u8];
    let term = [27u8, 92u8];
    let id = [71u8, 105u8, 61u8];
    assert(apc@ =~= seq![27u8, 95u8, 71u8]);
    assert(term@ =~= st());
    assert(id@ =~= seq![71u8, 105u8, 61u8]);
    find_bytes(reply, &apc).is_some() && find_bytes(reply, &term).is_some() && find_bytes(
        reply,
        &id,
    ).is_some()
}

/// Whether a reply to a color query is complete (it holds BEL or a string
/// terminator).
pub fn osc_reply_complete(reply: &[u8]) -> (b: bool)
    ensures
        b == (contains_bytes(reply@, seq![7u8]) || contains_bytes(reply@, st())),
{
    let bel = [7u8];
    let term = [27u8, 92u8];
    assert(bel@ =~= seq![7u8]);
    assert(term@ =~= st());
    find_bytes(reply, &bel).is_some() || find_bytes(reply, &term).is_some()
}

/// The first index at or after `i` where `pat` occurs in `s`, if any.
pub open spec fn first_occurrence(s: Seq<u8>, pat: Seq<u8>, i: int) -> Option<int>
    decreases s.len() + 1 - i,
{
    if i < 0 || i + pat.len() > s.len() {
        None
    } else if occurs_at(s, pat, i) {
        Some(i)
    } else {
        first_occurrence(s, pat, i + 1)
    }
}

/// The search from `i` finds the first occurrence at or after `i`.
proof fn lemma_first_occurrence(s: Seq<u8>, pat: Seq<u8>, i: int)
    requires
        0 <= i,
    ensures
        match first_occurrence(s, pat, i) {
            Some(k) => i <= k && occurs_at(s, pat, k) && forall|j: int|
                i <= j < k ==> !occurs_at(s, pat, j),
            None => forall|j: int| i <= j ==> !occurs_at(s, pat, j),
        },
    decreases s.len() + 1 - i,
{
    if i + pat.len() <= s.len() && !occurs_at(s, pat, i) {
        lemma_first_occurrence(s, pat, i + 1);
    }
}

/// The color in a reply to a color query: the color specification that
/// starts at the first `rgb:` in the reply.
pub open spec fn osc_color_spec(reply: Seq<u8>) -> Option<(u8, u8, u8)> {
    match first_occurrence(reply, seq![114u8, 103u8, 98u8, 58u8], 0) {
        Some(i) => rgb_spec(reply.skip(i)),
        None => None,
    }
}

/// Reads the color out of a terminal's reply to a color query.
pub fn parse_osc_color_reply(reply: &[u8]) -> (c: Option<(u8, u8, u8)>)
    ensures
        c == osc_color_spec(reply@),
{
    let rgb = [114u8, 103u8, 98u8, 58u8];
    let ghost pat = seq![114u8, 103u8, 98u8, 58u8];
    assert(rgb@ =~= pat);
    proof {
        lemma_first_occurrence(reply@, pat, 0);
    }
    match find_bytes(reply, &rgb) {
        Some(i) => {
            proof {
                match first_occurrence(reply@, pat, 0) {
                    Some(k) => {
                        if k < i {
                        } else if k > i {
                        }
                    },
                    None => {},
                }
            }
            rgb_at(reply, i)
        },
        None => None,
    }
}

/// The standard (RFC 4648, padded) base64 encoding of `data`, as the
/// `base64` crate computes it.
pub uninterp spec fn base64_standard(data: Seq<u8>) -> Seq<u8>;

/// `base64::Engine::encode` with the `STANDARD` engine (standard alphabet,
/// `=` padding), its `String` turned into its bytes.  The contract names
/// the result and states its length, `4 * ceil(n / 3)`, which the crate's
/// `encoded_len` computes for padded output.  The crate panics when that
/// length overflows `usize`, and allocating more than `isize::MAX` bytes
/// panics too; `requires` keeps the input below both.
#[verifier::external_body]
fn base64_encode(data: &[u8]) -> (out: Vec<u8>)
    requires
        data@.len() <= usize::MAX / 4,
    ensures
        out@ == base64_standard(data@),
        out@.len() == 4 * ((data@.len() + 2) / 3),
{
    base64::Engine::encode(&base64::engine::general_purpose::STANDARD, data).into_bytes()
}

/// Largest base64 payload sent in one graphics command.
pub const CHUNK_SIZE: usize = 16384;

/// One graphics command: transmit-and-display a PNG (`f=100,a=T,t=d`),
/// quietly (`q=2`), with the `m` flag telling whether more chunks follow,
/// the image id, and the width in columns, carrying `chunk`.
pub open spec fn image_frame(more: nat, id: nat, cols: nat, chunk: Seq<u8>) -> Seq<u8> {
    "\x1b_Gf=100,a=T,t=d,q=2,m=".spec_bytes() + decimal(more) + ",i=".spec_bytes() + decimal(id)
        + ",c=".spec_bytes() + decimal(cols) + ";".spec_bytes() + chunk + st()
}

/// The graphics commands that carry `payload` in chunks of `CHUNK_SIZE`
/// bytes, in order; all but the last say that more follow.
pub open spec fn image_frames(payload: Seq<u8>, id: nat, cols: nat) -> Seq<u8>
    decreases payload.len(),
{
    if payload.len() == 0 {
        Seq::empty()
    } else if payload.len() <= CHUNK_SIZE {
        image_frame(0, id, cols, payload)
    } else {
        image_frame(1, id, cols, payload.take(CHUNK_SIZE as int)) + image_frames(
            payload.skip(CHUNK_SIZE as int),
            id,
            cols,
        )
    }
}

/// The chunks `image_frames` cuts `payload` into.
pub open spec fn image_chunks(payload: Seq<u8>) -> Seq<Seq<u8>>
    decreases payload.len(),
{
    if payload.len() == 0 {
        Seq::empty()
    } else if payload.len() <= CHUNK_SIZE {
        seq![payload]
    } else {
        seq![payload.take(CHUNK_SIZE as int)] + image_chunks(payload.skip(CHUNK_SIZE as int))
    }
}

/// Chunks joined end to end.
pub open spec fn join_chunks(chunks: Seq<Seq<u8>>) -> Seq<u8>
    decreases chunks.len(),
{
    if chunks.len() == 0 {
        Seq::empty()
    } else {
        chunks[0] + join_chunks(chunks.drop_first())
    }
}

/// The image is sent whole and in order: the chunks rejoin to the
/// payload, none is empty or larger than `CHUNK_SIZE`, and all but the
/// last are full.
pub proof fn lemma_image_chunks(payload: Seq<u8>)
    ensures
        join_chunks(image_chunks(payload)) == payload,
        forall|i: int|
            0 <= i < image_chunks(payload).len() ==> 0 < #[trigger] image_chunks(payload)[i].len()
                <= CHUNK_SIZE,
        forall|i: int|
            0 <= i < image_chunks(payload).len() - 1 ==> #[trigger] image_chunks(payload)[i].len()
                == CHUNK_SIZE,
    decreases payload.len(),
{
    if payload.len() == 0 {
        assert(payload =~= Seq::<u8>::empty());
    } else if payload.len() <= CHUNK_SIZE {
        let c = seq![payload];
        assert(c.drop_first() =~= Seq::<Seq<u8>>::empty());
        assert(payload + Seq::<u8>::empty() =~= payload);
        assert(join_chunks(c) == c[0] + join_chunks(c.drop_first()));
    } else {
        let rest = payload.skip(CHUNK_SIZE as int);
        lemma_image_chunks(rest);
        let c = seq![payload.take(CHUNK_SIZE as int)] + image_chunks(rest);
        assert(c.drop_first() =~= image_chunks(rest));
        assert(payload.take(CHUNK_SIZE as int) + rest =~= payload);
        assert(join_chunks(c) == c[0] + join_chunks(c.drop_first()));
        assert forall|i: int| 0 <= i < c.len() implies 0 < #[trigger] c[i].len() <= CHUNK_SIZE by {
            if i > 0 {
                assert(c[i] == image_chunks(rest)[i - 1]);
            }
        }
        assert forall|i: int| 0 <= i < c.len() - 1 implies #[trigger] c[i].len() == CHUNK_SIZE by {
            if i > 0 {
                assert(c[i] == image_chunks(rest)[i - 1]);
            }
        }
    }
}

/// Appends one graphics command carrying `data[lo..hi]`.
fn append_image_frame(
    out: &mut Vec<u8>,
    more: u64,
    id: u32,
    cols: u16,
    data: &[u8],
    lo: usize,
    hi: usize,
)
    requires
        lo <= hi <= data@.len(),
    ensures
        final(out)@ == old(out)@ + image_frame(
            more as nat,
            id as nat,
            cols as nat,
            data@.subrange(lo as int, hi as int),
        ),
{
    let ghost start = out@;
    append_bytes(out, "\x1b_Gf=100,a=T,t=d,q=2,m=".as_bytes());
    append_decimal(out, more);
    append_bytes(out, ",i=".as_bytes());
    append_decimal(out, id as u64);
    append_bytes(out, ",c=".as_bytes());
    append_decimal(out, cols as u64);
    append_bytes(out, ";".as_bytes());
    let mut i = lo;
    let ghost before = out@;
    while i < hi
        invariant
            lo <= i <= hi <= data@.len(),
            out@ =~= before + data@.subrange(lo as int, i as int),
        decreases hi - i,
    {
        out.push(data[i]);
        i = i + 1;
    }
    out.push(27u8);
    out.push(92u8);
    assert(out@ =~= start + image_frame(
        more as nat,
        id as nat,
        cols as nat,
        data@.subrange(lo as int, hi as int),
    ));
}

/// The graphics commands that display `png_data` at the cursor, `cols`
/// columns wide (at least 1); the terminal works out the rows from the
/// image's aspect ratio.  The base64 payload is sent in chunks of
/// `CHUNK_SIZE` bytes.
pub fn kitty_display_image_escape(png_data: &[u8], image_id: u32, cols: u16) -> (out: Vec<u8>)
    requires
        png_data@.len() <= usize::MAX / 4,
    ensures
        base64_standard(png_data@).len() == 4 * ((png_data@.len() + 2) / 3),
        out@ == image_frames(
            base64_standard(png_data@),
            image_id as nat,
            if cols >= 1 {
                cols as nat
            } else {
                1
            },
        ),
{
    let b64 = base64_encode(png_data);
    let c: u16 = if cols >= 1 {
        cols
    } else {
        1
    };
    let ghost payload = b64@;
    let n = b64.len();
    let mut out: Vec<u8> = Vec::new();
    let mut off: usize = 0;
    assert(payload.skip(0) =~= payload);
    assert(out@ + image_frames(payload, image_id as nat, c as nat) =~= image_frames(
        payload,
        image_id as nat,
        c as nat,
    ));
    while off < n
        invariant
            off <= n,
            n == payload.len(),
            b64@ == payload,
            image_frames(payload, image_id as nat, c as nat) == out@ + image_frames(
                payload.skip(off as int),
                image_id as nat,
                c as nat,
            ),
        decreases n - off,
    {
        let rest = n - off;
        let ghost tail = payload.skip(off as int);
        if rest <= CHUNK_SIZE {
            append_image_frame(&mut out, 0, image_id, c, b64.as_slice(), off, n);
            proof {
                assert(payload.subrange(off as int, n as int) =~= tail);
                assert(payload.skip(n as int) =~= Seq::<u8>::empty());
                assert(out@ + image_frames(payload.skip(n as int), image_id as nat, c as nat)
                    =~= out@);
            }
            off = n;
        } else {
            append_image_frame(&mut out, 1, image_id, c, b64.as_slice(), off, off + CHUNK_SIZE);
            proof {
                assert(payload.subrange(off as int, off + CHUNK_SIZE) =~= tail.take(
                    CHUNK_SIZE as int,
                ));
                assert(tail.skip(CHUNK_SIZE as int) =~= payload.skip(off + CHUNK_SIZE));
            }
            off = off + CHUNK_SIZE;
        }
    }
    proof {
        assert(payload.skip(off as int) =~= Seq::<u8>::empty());
        assert(out@ + Seq::<u8>::empty() =~= out@);
    }
    out
}

/// The window size is taken field by field from what the terminal
/// reported: columns stay columns and rows stay rows, a 0 becomes 1 in
/// that field alone, and the pixel sizes are passed on; with no report
/// the size is 80 columns by 24 rows with unknown pixels.
pub proof fn lemma_size_from_report(reported: Option<TermSize>)
    ensures
        reported matches Some(ws) ==> {
            &&& size_spec(reported).cols == (if ws.cols == 0 {
                1
            } else {
                ws.cols
            })
            &&& size_spec(reported).rows == (if ws.rows == 0 {
                1
            } else {
                ws.rows
            })
            &&& size_spec(reported).pixel_width == ws.pixel_width
            &&& size_spec(reported).pixel_height == ws.pixel_height
        },
        reported is None ==> size_spec(reported).cols == 80 && size_spec(reported).rows == 24
            && size_spec(reported).pixel_width == 0 && size_spec(reported).pixel_height == 0,
{
}

/// A cell is as wide as the reported pixel width shared out over the
/// columns, rounded down (and as tall as the pixel height over the rows):
/// that many pixels fit once per column and one more would not; a cell
/// narrower than a pixel counts as 1, and with no pixel size reported the
/// cell is 8 pixels wide and 16 tall.
pub proof fn lemma_cell_size(size: TermSize)
    ensures
        ({
            let (w, h) = cell_size_spec(size);
            &&& size.pixel_width > 0 && size.cols > 0 && size.pixel_width >= size.cols ==> w
                * size.cols <= size.pixel_width < (w + 1) * size.cols
            &&& size.pixel_width > 0 && size.cols > 0 && size.pixel_width < size.cols ==> w == 1
            &&& size.pixel_width == 0 || size.cols == 0 ==> w == 8
            &&& size.pixel_height > 0 && size.rows > 0 && size.pixel_height >= size.rows ==> h
                * size.rows <= size.pixel_height < (h + 1) * size.rows
            &&& size.pixel_height > 0 && size.rows > 0 && size.pixel_height < size.rows ==> h
                == 1
            &&& size.pixel_height == 0 || size.rows == 0 ==> h == 16
        }),
{
    let pw = size.pixel_width as int;
    let c = size.cols as int;
    if pw > 0 && c > 0 {
        let q = pw / c;
        assert(q * c <= pw < (q + 1) * c && 0 <= q <= pw) by (nonlinear_arith)
            requires
                pw > 0,
                c > 0,
                q == pw / c,
        ;
        if pw >= c {
            assert(q >= 1) by (nonlinear_arith)
                requires
                    pw >= c,
                    c > 0,
                    q == pw / c,
            ;
        } else {
            assert(q == 0) by (nonlinear_arith)
                requires
                    0 <= pw < c,
                    q == pw / c,
            ;
        }
    }
    let ph = size.pixel_height as int;
    let r = size.rows as int;
    if ph > 0 && r > 0 {
        let q = ph / r;
        assert(q * r <= ph < (q + 1) * r && 0 <= q <= ph) by (nonlinear_arith)
            requires
                ph > 0,
                r > 0,
                q == ph / r,
        ;
        if ph >= r {
            assert(q >= 1) by (nonlinear_arith)
                requires
                    ph >= r,
                    r > 0,
                    q == ph / r,
            ;
        } else {
            assert(q == 0) by (nonlinear_arith)
                requires
                    0 <= ph < r,
                    q == ph / r,
            ;
        }
    }
}

/// Three two-digit hexadecimal fields after `rgb:` are read in order as
/// the red, green and blue channels, high digit first.
pub proof fn lemma_rgb_fields(r1: u8, r2: u8, g1: u8, g2: u8, b1: u8, b2: u8)
    requires
        hex_value(r1) is Some,
        hex_value(r2) is Some,
        hex_value(g1) is Some,
        hex_value(g2) is Some,
        hex_value(b1) is Some,
        hex_value(b2) is Some,
    ensures
        rgb_spec(seq![114u8, 103u8, 98u8, 58u8, r1, r2, 47u8, g1, g2, 47u8, b1, b2]) == Some(
            (
                (16 * hex_value(r1)->0 + hex_value(r2)->0) as u8,
                (16 * hex_value(g1)->0 + hex_value(g2)->0) as u8,
                (16 * hex_value(b1)->0 + hex_value(b2)->0) as u8,
            ),
        ),
{
    let s = seq![114u8, 103u8, 98u8, 58u8, r1, r2, 47u8, g1, g2, 47u8, b1, b2];
    let r = s.skip(4);
    assert(s.take(4) =~= seq![114u8, 103u8, 98u8, 58u8]);
    assert(r =~= seq![r1, r2, 47u8, g1, g2, 47u8, b1, b2]);
    assert(slash_from(r, 8) == 8);
    assert(slash_from(r, 7) == 8);
    assert(slash_from(r, 6) == 8);
    assert(slash_from(r, 5) == 5);
    assert(slash_from(r, 4) == 5);
    assert(slash_from(r, 3) == 5);
    assert(slash_from(r, 2) == 2);
    assert(slash_from(r, 1) == 2);
    assert(slash_from(r, 0) == 2);
    assert(r.subrange(0, 2) =~= seq![r1, r2]);
    assert(r.subrange(3, 5) =~= seq![g1, g2]);
    assert(r.subrange(6, 8) =~= seq![b1, b2]);
}

/// The terminals recognised by name are exactly `xterm-kitty`,
/// `xterm-ghostty` and `rio` by `TERM`, and `kitty`, `ghostty`, `rio`,
/// `WezTerm` and `otty` by `TERM_PROGRAM`: any other pair of values is not
/// recognised, and each of these is, whatever the other value.
pub proof fn lemma_known_terminals(term: Seq<u8>, program: Seq<u8>)
    ensures
        term != "xterm-kitty".spec_bytes() && term != "xterm-ghostty".spec_bytes() && term
            != "rio".spec_bytes() && program != "kitty".spec_bytes() && program
            != "ghostty".spec_bytes() && program != "rio".spec_bytes() && program
            != "WezTerm".spec_bytes() && program != "otty".spec_bytes() ==> !known_kitty_terminal(
            term,
            program,
        ),
        term == "xterm-kitty".spec_bytes() || term == "xterm-ghostty".spec_bytes() || term
            == "rio".spec_bytes() ==> known_kitty_terminal(term, program),
        program == "kitty".spec_bytes() || program == "ghostty".spec_bytes() || program
            == "rio".spec_bytes() || program == "WezTerm".spec_bytes() || program
            == "otty".spec_bytes() ==> known_kitty_terminal(term, program),
{
}

/// The graphics commands for a payload are one command per chunk, in
/// order, each carrying its chunk; every command but the last says more
/// follow (`m=1`) and the last says it is the last (`m=0`).
pub proof fn lemma_image_frames_per_chunk(payload: Seq<u8>, id: nat, cols: nat)
    ensures
        image_frames(payload, id, cols) == join_chunks(
            Seq::new(
                image_chunks(payload).len(),
                |i: int|
                    image_frame(
                        if i + 1 < image_chunks(payload).len() {
                            1
                        } else {
                            0
                        },
                        id,
                        cols,
                        image_chunks(payload)[i],
                    ),
            ),
        ),
    decreases payload.len(),
{
    let k = image_chunks(payload).len();
    let frames = Seq::new(
        k,
        |i: int|
            image_frame(
                if i + 1 < k {
                    1
                } else {
                    0
                },
                id,
                cols,
                image_chunks(payload)[i],
            ),
    );
    if payload.len() == 0 {
        assert(frames =~= Seq::<Seq<u8>>::empty());
    } else if payload.len() <= CHUNK_SIZE {
        assert(k == 1);
        assert(frames.drop_first() =~= Seq::<Seq<u8>>::empty());
        assert(join_chunks(frames) == frames[0] + join_chunks(frames.drop_first()));
        assert(frames[0] + Seq::<u8>::empty() =~= frames[0]);
    } else {
        let rest = payload.skip(CHUNK_SIZE as int);
        lemma_image_frames_per_chunk(rest, id, cols);
        lemma_image_chunks(rest);
        let kr = image_chunks(rest).len();
        assert(image_chunks(payload) == seq![payload.take(CHUNK_SIZE as int)] + image_chunks(rest));
        assert(kr > 0);
        assert(k == kr + 1);
        let tail = Seq::new(
            kr,
            |i: int|
                image_frame(
                    if i + 1 < kr {
                        1
                    } else {
                        0
                    },
                    id,
                    cols,
                    image_chunks(rest)[i],
                ),
        );
        assert(frames.drop_first() =~= tail);
        assert(join_chunks(frames) == frames[0] + join_chunks(frames.drop_first()));
    }
}

} // verus!
