//! The page geometry handed to the typesetter.

use crate::term::TermCaps;
use crate::text::decimal;
use vstd::prelude::*;
use vstd::string::StringSliceAdditionalSpecFns;

verus! {

/// Terminal width in pixels: as reported, or columns times cell width
/// (cell width at least 1), and never under 320.
pub open spec fn pixel_width_spec(caps: TermCaps) -> u32 {
    let w: int = if caps.pixel_width > 0 {
        caps.pixel_width as int
    } else {
        caps.cols as int * (if caps.cell_width >= 1 {
            caps.cell_width as int
        } else {
            1
        })
    };
    if w >= 320 {
        w as u32
    } else {
        320
    }
}

/// Terminal height in pixels: as reported, or rows times cell height
/// (cell height at least 1), and never under 240.
pub open spec fn pixel_height_spec(caps: TermCaps) -> u32 {
    let h: int = if caps.pixel_height > 0 {
        caps.pixel_height as int
    } else {
        caps.rows as int * (if caps.cell_height >= 1 {
            caps.cell_height as int
        } else {
            1
        })
    };
    if h >= 240 {
        h as u32
    } else {
        240
    }
}

/// The width in pixels that a page is laid out for.
pub fn terminal_pixel_width(caps: &TermCaps) -> (w: u32)
    ensures
        w == pixel_width_spec(*caps),
{
    let w: u32 = if caps.pixel_width > 0 {
        caps.pixel_width as u32
    } else {
        let cw: u32 = if caps.cell_width >= 1 {
            caps.cell_width as u32
        } else {
            1
        };
        assert(caps.cols as u32 * cw <= 65535 * 65535) by (nonlinear_arith)
            requires
                caps.cols <= 65535,
                cw <= 65535,
        ;
        caps.cols as u32 * cw
    };
    if w >= 320 {
        w
    } else {
        320
    }
}

/// The height in pixels that a page is laid out for.
pub fn terminal_pixel_height(caps: &TermCaps) -> (h: u32)
    ensures
        h == pixel_height_spec(*caps),
{
    let h: u32 = if caps.pixel_height > 0 {
        caps.pixel_height as u32
    } else {
        let ch: u32 = if caps.cell_height >= 1 {
            caps.cell_height as u32
        } else {
            1
        };
        assert(caps.rows as u32 * ch <= 65535 * 65535) by (nonlinear_arith)
            requires
                caps.rows <= 65535,
                ch <= 65535,
        ;
        caps.rows as u32 * ch
    };
    if h >= 240 {
        h
    } else {
        240
    }
}

/// The page is laid out for the terminal's own pixel size when it
/// reported one of at least 320 by 240; for its cells times the cell size
/// when it reported none; and never for less than 320 by 240.
pub proof fn lemma_page_geometry(caps: TermCaps)
    ensures
        pixel_width_spec(caps) >= 320,
        pixel_height_spec(caps) >= 240,
        caps.pixel_width >= 320 ==> pixel_width_spec(caps) == caps.pixel_width,
        caps.pixel_height >= 240 ==> pixel_height_spec(caps) == caps.pixel_height,
        caps.pixel_width == 0 && caps.cell_width >= 1 && caps.cols * caps.cell_width >= 320
            ==> pixel_width_spec(caps) == caps.cols * caps.cell_width,
        caps.pixel_height == 0 && caps.cell_height >= 1 && caps.rows * caps.cell_height >= 240
            ==> pixel_height_spec(caps) == caps.rows * caps.cell_height,
        pixel_width_spec(caps) == pixel_width_spec(
            (TermCaps { rows: 0, pixel_height: 0, cell_height: 0, ..caps }),
        ),
        pixel_height_spec(caps) == pixel_height_spec(
            (TermCaps { cols: 0, pixel_width: 0, cell_width: 0, ..caps }),
        ),
{
    assert(caps.cols * caps.cell_width <= 65535 * 65535) by (nonlinear_arith)
        requires
            caps.cols <= 65535,
            caps.cell_width <= 65535,
    ;
    assert(caps.rows * caps.cell_height <= 65535 * 65535) by (nonlinear_arith)
        requires
            caps.rows <= 65535,
            caps.cell_height <= 65535,
    ;
}

/// The number that a string of ASCII digits spells.
pub open spec fn digits_value(d: Seq<u8>) -> nat
    decreases d.len(),
{
    if d.len() == 0 {
        0
    } else {
        digits_value(d.drop_last()) * 10 + (d.last() - 48) as nat
    }
}

/// Every byte is an ASCII digit.
pub open spec fn all_digits(d: Seq<u8>) -> bool {
    forall|i: int| 0 <= i < d.len() ==> 48 <= #[trigger] d[i] <= 57
}

/// A `u32` written in decimal as Rust's `str::parse::<u32>` reads it: an
/// optional `+`, then at least one digit, and no more than `u32::MAX`.
pub open spec fn parse_u32_spec(s: Seq<u8>) -> Option<u32> {
    let d = if s.len() > 0 && s[0] == 43 {
        s.skip(1)
    } else {
        s
    };
    if d.len() == 0 || !all_digits(d) || digits_value(d) > u32::MAX {
        None
    } else {
        Some(digits_value(d) as u32)
    }
}

/// The PNG resolution to render at: the setting when it is a number from
/// 72 to 600, else 200.
pub open spec fn ppi_spec(setting: Option<Seq<u8>>) -> u32 {
    match setting {
        Some(s) => match parse_u32_spec(s) {
            Some(v) => if 72 <= v <= 600 {
                v
            } else {
                200
            },
            None => 200,
        },
        None => 200,
    }
}

/// A longer string of digits spells a number no smaller.
proof fn lemma_digits_grow(d: Seq<u8>, k: int)
    requires
        0 <= k <= d.len(),
        all_digits(d),
    ensures
        digits_value(d.take(k)) <= digits_value(d),
    decreases d.len() - k,
{
    if k < d.len() {
        lemma_digits_grow(d, k + 1);
        assert(d.take(k + 1).drop_last() =~= d.take(k));
        assert(d.take(k + 1).last() == d[k]);
        assert(digits_value(d.take(k + 1)) == digits_value(d.take(k)) * 10 + (d[k] - 48) as nat);
    } else {
        assert(d.take(k) =~= d);
    }
}

/// A decimal numeral is all digits and spells its own number.
proof fn lemma_decimal_digits(n: nat)
    ensures
        decimal(n).len() > 0,
        all_digits(decimal(n)),
        digits_value(decimal(n)) == n,
    decreases n,
{
    if n >= 10 {
        lemma_decimal_digits(n / 10);
        let d = decimal(n);
        assert(d.drop_last() =~= decimal(n / 10));
        assert(d.last() == 48 + n % 10);
        assert(digits_value(d) == digits_value(decimal(n / 10)) * 10 + n % 10);
        assert(forall|i: int| 0 <= i < d.len() ==> 48 <= #[trigger] d[i] <= 57) by {
            assert forall|i: int| 0 <= i < d.len() implies 48 <= #[trigger] d[i] <= 57 by {
                if i < d.len() - 1 {
                    assert(d[i] == decimal(n / 10)[i]);
                }
            }
        }
    } else {
        let d = decimal(n);
        assert(d.drop_last() =~= Seq::<u8>::empty());
        assert(digits_value(d.drop_last()) == 0);
        assert(digits_value(d) == n);
    }
}

/// The resolution setting is taken at its word when it is a number from
/// 72 to 600 and replaced by 200 when it is any other number; whatever the
/// setting, the resolution lies between 72 and 600.
pub proof fn lemma_ppi_setting(setting: Option<Seq<u8>>, v: u32)
    ensures
        72 <= ppi_spec(setting) <= 600,
        72 <= v <= 600 ==> ppi_spec(Some(decimal(v as nat))) == v,
        !(72 <= v <= 600) ==> ppi_spec(Some(decimal(v as nat))) == 200,
        ppi_spec(None) == 200,
{
    lemma_decimal_digits(v as nat);
}

/// Reads a decimal `u32` as `str::parse::<u32>` does.
fn parse_u32(s: &[u8]) -> (v: Option<u32>)
    ensures
        v == parse_u32_spec(s@),
{
    let start: usize = if s.len() > 0 && s[0] == 43 {
        1
    } else {
        0
    };
    let ghost d = s@.skip(start as int);
    assert(d =~= if s@.len() > 0 && s@[0] == 43 {
        s@.skip(1)
    } else {
        s@
    });
    if start == s.len() {
        return None;
    }
    let mut acc: u64 = 0;
    let mut i: usize = start;
    while i < s.len()
        invariant
            start <= i <= s@.len(),
            d == s@.skip(start as int),
            d == (if s@.len() > 0 && s@[0] == 43 {
                s@.skip(1)
            } else {
                s@
            }),
            all_digits(d.take(i - start)),
            acc == digits_value(d.take(i - start)),
            acc <= u32::MAX,
        decreases s@.len() - i,
    {
        let c = s[i];
        proof {
            assert(d.take(i - start + 1).drop_last() =~= d.take(i - start));
            assert(d[i - start] == c);
        }
        if c < 48 || c > 57 {
            assert(!(48 <= d[i - start] <= 57));
            assert(!all_digits(d));
            return None;
        }
        acc = acc * 10 + (c - 48) as u64;
        assert(acc == digits_value(d.take(i - start + 1)));
        if acc > 4294967295 {
            proof {
                if all_digits(d) {
                    lemma_digits_grow(d, i - start + 1);
                }
            }
            return None;
        }
        i = i + 1;
        assert(all_digits(d.take(i - start)));
    }
    assert(d.take(i - start) =~= d);
    Some(acc as u32)
}

/// The PNG resolution from the resolution setting (`None` when unset).
pub fn typst_ppi(setting: Option<&str>) -> (ppi: u32)
    ensures
        ppi == ppi_spec(
            match setting {
                Some(s) => Some(s.spec_bytes()),
                None => None,
            },
        ),
{
    match setting {
        Some(s) => match parse_u32(s.as_bytes()) {
            Some(v) => if 72 <= v && v <= 600 {
                v
            } else {
                200
            },
            None => 200,
        },
        None => 200,
    }
}

} // verus!
