//! Text drawn with the 8x8 bitmap font of the `font8x8` crate: each glyph
//! is eight rows of eight bits, bit `c` of row `r` set when the pixel in
//! column `c`, row `r` is inked; every font pixel is drawn as a
//! `scale * scale` square.

use vstd::prelude::*;
use vstd::arithmetic::div_mod::lemma_fundamental_div_mod;
use vstd::arithmetic::div_mod::lemma_fundamental_div_mod_converse;
use font8x8::UnicodeFonts;
use crate::framebuffer::Framebuffer;
use crate::framebuffer::painted;
use crate::framebuffer::block;
use crate::framebuffer::lemma_paint_union;
use crate::framebuffer::lemma_paint_same_region;

verus! {

/// The glyph `font8x8::BASIC_FONTS` holds for a character of the Basic
/// Latin block (`U+0000` to `U+007F`), as its table `BASIC_LEGACY` lists
/// it: blank for the control characters, the space and `U+007F`.
pub open spec fn basic_glyph(c: char) -> [u8; 8] {
    match c as u32 {
        0x21u32 => [0x18, 0x3C, 0x3C, 0x18, 0x18, 0x00, 0x18, 0x00],
        0x22u32 => [0x36, 0x36, 0x00, 0x00, 0x00, 0x00, 0x00, 0x00],
        0x23u32 => [0x36, 0x36, 0x7F, 0x36, 0x7F, 0x36, 0x36, 0x00],
        0x24u32 => [0x0C, 0x3E, 0x03, 0x1E, 0x30, 0x1F, 0x0C, 0x00],
        0x25u32 => [0x00, 0x63, 0x33, 0x18, 0x0C, 0x66, 0x63, 0x00],
        0x26u32 => [0x1C, 0x36, 0x1C, 0x6E, 0x3B, 0x33, 0x6E, 0x00],
        0x27u32 => [0x06, 0x06, 0x03, 0x00, 0x00, 0x00, 0x00, 0x00],
        0x28u32 => [0x18, 0x0C, 0x06, 0x06, 0x06, 0x0C, 0x18, 0x00],
        0x29u32 => [0x06, 0x0C, 0x18, 0x18, 0x18, 0x0C, 0x06, 0x00],
        0x2Au32 => [0x00, 0x66, 0x3C, 0xFF, 0x3C, 0x66, 0x00, 0x00],
        0x2Bu32 => [0x00, 0x0C, 0x0C, 0x3F, 0x0C, 0x0C, 0x00, 0x00],
        0x2Cu32 => [0x00, 0x00, 0x00, 0x00, 0x00, 0x0C, 0x0C, 0x06],
        0x2Du32 => [0x00, 0x00, 0x00, 0x3F, 0x00, 0x00, 0x00, 0x00],
        0x2Eu32 => [0x00, 0x00, 0x00, 0x00, 0x00, 0x0C, 0x0C, 0x00],
        0x2Fu32 => [0x60, 0x30, 0x18, 0x0C, 0x06, 0x03, 0x01, 0x00],
        0x30u32 => [0x3E, 0x63, 0x73, 0x7B, 0x6F, 0x67, 0x3E, 0x00],
        0x31u32 => [0x0C, 0x0E, 0x0C, 0x0C, 0x0C, 0x0C, 0x3F, 0x00],
        0x32u32 => [0x1E, 0x33, 0x30, 0x1C, 0x06, 0x33, 0x3F, 0x00],
        0x33u32 => [0x1E, 0x33, 0x30, 0x1C, 0x30, 0x33, 0x1E, 0x00],
        0x34u32 => [0x38, 0x3C, 0x36, 0x33, 0x7F, 0x30, 0x78, 0x00],
        0x35u32 => [0x3F, 0x03, 0x1F, 0x30, 0x30, 0x33, 0x1E, 0x00],
        0x36u32 => [0x1C, 0x06, 0x03, 0x1F, 0x33, 0x33, 0x1E, 0x00],
        0x37u32 => [0x3F, 0x33, 0x30, 0x18, 0x0C, 0x0C, 0x0C, 0x00],
        0x38u32 => [0x1E, 0x33, 0x33, 0x1E, 0x33, 0x33, 0x1E, 0x00],
        0x39u32 => [0x1E, 0x33, 0x33, 0x3E, 0x30, 0x18, 0x0E, 0x00],
        0x3Au32 => [0x00, 0x0C, 0x0C, 0x00, 0x00, 0x0C, 0x0C, 0x00],
        0x3Bu32 => [0x00, 0x0C, 0x0C, 0x00, 0x00, 0x0C, 0x0C, 0x06],
        0x3Cu32 => [0x18, 0x0C, 0x06, 0x03, 0x06, 0x0C, 0x18, 0x00],
        0x3Du32 => [0x00, 0x00, 0x3F, 0x00, 0x00, 0x3F, 0x00, 0x00],
        0x3Eu32 => [0x06, 0x0C, 0x18, 0x30, 0x18, 0x0C, 0x06, 0x00],
        0x3Fu32 => [0x1E, 0x33, 0x30, 0x18, 0x0C, 0x00, 0x0C, 0x00],
        0x40u32 => [0x3E, 0x63, 0x7B, 0x7B, 0x7B, 0x03, 0x1E, 0x00],
        0x41u32 => [0x0C, 0x1E, 0x33, 0x33, 0x3F, 0x33, 0x33, 0x00],
        0x42u32 => [0x3F, 0x66, 0x66, 0x3E, 0x66, 0x66, 0x3F, 0x00],
        0x43u32 => [0x3C, 0x66, 0x03, 0x03, 0x03, 0x66, 0x3C, 0x00],
        0x44u32 => [0x1F, 0x36, 0x66, 0x66, 0x66, 0x36, 0x1F, 0x00],
        0x45u32 => [0x7F, 0x46, 0x16, 0x1E, 0x16, 0x46, 0x7F, 0x00],
        0x46u32 => [0x7F, 0x46, 0x16, 0x1E, 0x16, 0x06, 0x0F, 0x00],
        0x47u32 => [0x3C, 0x66, 0x03, 0x03, 0x73, 0x66, 0x7C, 0x00],
        0x48u32 => [0x33, 0x33, 0x33, 0x3F, 0x33, 0x33, 0x33, 0x00],
        0x49u32 => [0x1E, 0x0C, 0x0C, 0x0C, 0x0C, 0x0C, 0x1E, 0x00],
        0x4Au32 => [0x78, 0x30, 0x30, 0x30, 0x33, 0x33, 0x1E, 0x00],
        0x4Bu32 => [0x67, 0x66, 0x36, 0x1E, 0x36, 0x66, 0x67, 0x00],
        0x4Cu32 => [0x0F, 0x06, 0x06, 0x06, 0x46, 0x66, 0x7F, 0x00],
        0x4Du32 => [0x63, 0x77, 0x7F, 0x7F, 0x6B, 0x63, 0x63, 0x00],
        0x4Eu32 => [0x63, 0x67, 0x6F, 0x7B, 0x73, 0x63, 0x63, 0x00],
        0x4Fu32 => [0x1C, 0x36, 0x63, 0x63, 0x63, 0x36, 0x1C, 0x00],
        0x50u32 => [0x3F, 0x66, 0x66, 0x3E, 0x06, 0x06, 0x0F, 0x00],
        0x51u32 => [0x1E, 0x33, 0x33, 0x33, 0x3B, 0x1E, 0x38, 0x00],
        0x52u32 => [0x3F, 0x66, 0x66, 0x3E, 0x36, 0x66, 0x67, 0x00],
        0x53u32 => [0x1E, 0x33, 0x07, 0x0E, 0x38, 0x33, 0x1E, 0x00],
        0x54u32 => [0x3F, 0x2D, 0x0C, 0x0C, 0x0C, 0x0C, 0x1E, 0x00],
        0x55u32 => [0x33, 0x33, 0x33, 0x33, 0x33, 0x33, 0x3F, 0x00],
        0x56u32 => [0x33, 0x33, 0x33, 0x33, 0x33, 0x1E, 0x0C, 0x00],
        0x57u32 => [0x63, 0x63, 0x63, 0x6B, 0x7F, 0x77, 0x63, 0x00],
        0x58u32 => [0x63, 0x63, 0x36, 0x1C, 0x1C, 0x36, 0x63, 0x00],
        0x59u32 => [0x33, 0x33, 0x33, 0x1E, 0x0C, 0x0C, 0x1E, 0x00],
        0x5Au32 => [0x7F, 0x63, 0x31, 0x18, 0x4C, 0x66, 0x7F, 0x00],
        0x5Bu32 => [0x1E, 0x06, 0x06, 0x06, 0x06, 0x06, 0x1E, 0x00],
        0x5Cu32 => [0x03, 0x06, 0x0C, 0x18, 0x30, 0x60, 0x40, 0x00],
        0x5Du32 => [0x1E, 0x18, 0x18, 0x18, 0x18, 0x18, 0x1E, 0x00],
        0x5Eu32 => [0x08, 0x1C, 0x36, 0x63, 0x00, 0x00, 0x00, 0x00],
        0x5Fu32 => [0x00, 0x00, 0x00, 0x00, 0x00, 0x00, 0x00, 0xFF],
        0x60u32 => [0x0C, 0x0C, 0x18, 0x00, 0x00, 0x00, 0x00, 0x00],
        0x61u32 => [0x00, 0x00, 0x1E, 0x30, 0x3E, 0x33, 0x6E, 0x00],
        0x62u32 => [0x07, 0x06, 0x06, 0x3E, 0x66, 0x66, 0x3B, 0x00],
        0x63u32 => [0x00, 0x00, 0x1E, 0x33, 0x03, 0x33, 0x1E, 0x00],
        0x64u32 => [0x38, 0x30, 0x30, 0x3E, 0x33, 0x33, 0x6E, 0x00],
        0x65u32 => [0x00, 0x00, 0x1E, 0x33, 0x3F, 0x03, 0x1E, 0x00],
        0x66u32 => [0x1C, 0x36, 0x06, 0x0F, 0x06, 0x06, 0x0F, 0x00],
        0x67u32 => [0x00, 0x00, 0x6E, 0x33, 0x33, 0x3E, 0x30, 0x1F],
        0x68u32 => [0x07, 0x06, 0x36, 0x6E, 0x66, 0x66, 0x67, 0x00],
        0x69u32 => [0x0C, 0x00, 0x0E, 0x0C, 0x0C, 0x0C, 0x1E, 0x00],
        0x6Au32 => [0x30, 0x00, 0x30, 0x30, 0x30, 0x33, 0x33, 0x1E],
        0x6Bu32 => [0x07, 0x06, 0x66, 0x36, 0x1E, 0x36, 0x67, 0x00],
        0x6Cu32 => [0x0E, 0x0C, 0x0C, 0x0C, 0x0C, 0x0C, 0x1E, 0x00],
        0x6Du32 => [0x00, 0x00, 0x33, 0x7F, 0x7F, 0x6B, 0x63, 0x00],
        0x6Eu32 => [0x00, 0x00, 0x1F, 0x33, 0x33, 0x33, 0x33, 0x00],
        0x6Fu32 => [0x00, 0x00, 0x1E, 0x33, 0x33, 0x33, 0x1E, 0x00],
        0x70u32 => [0x00, 0x00, 0x3B, 0x66, 0x66, 0x3E, 0x06, 0x0F],
        0x71u32 => [0x00, 0x00, 0x6E, 0x33, 0x33, 0x3E, 0x30, 0x78],
        0x72u32 => [0x00, 0x00, 0x3B, 0x6E, 0x66, 0x06, 0x0F, 0x00],
        0x73u32 => [0x00, 0x00, 0x3E, 0x03, 0x1E, 0x30, 0x1F, 0x00],
        0x74u32 => [0x08, 0x0C, 0x3E, 0x0C, 0x0C, 0x2C, 0x18, 0x00],
        0x75u32 => [0x00, 0x00, 0x33, 0x33, 0x33, 0x33, 0x6E, 0x00],
        0x76u32 => [0x00, 0x00, 0x33, 0x33, 0x33, 0x1E, 0x0C, 0x00],
        0x77u32 => [0x00, 0x00, 0x63, 0x6B, 0x7F, 0x7F, 0x36, 0x00],
        0x78u32 => [0x00, 0x00, 0x63, 0x36, 0x1C, 0x36, 0x63, 0x00],
        0x79u32 => [0x00, 0x00, 0x33, 0x33, 0x33, 0x3E, 0x30, 0x1F],
        0x7Au32 => [0x00, 0x00, 0x3F, 0x19, 0x0C, 0x26, 0x3F, 0x00],
        0x7Bu32 => [0x38, 0x0C, 0x0C, 0x07, 0x0C, 0x0C, 0x38, 0x00],
        0x7Cu32 => [0x18, 0x18, 0x18, 0x00, 0x18, 0x18, 0x18, 0x00],
        0x7Du32 => [0x07, 0x0C, 0x0C, 0x38, 0x0C, 0x0C, 0x07, 0x00],
        0x7Eu32 => [0x6E, 0x3B, 0x00, 0x00, 0x00, 0x00, 0x00, 0x00],
        _ => [0x00, 0x00, 0x00, 0x00, 0x00, 0x00, 0x00, 0x00],
    }
}

/// Looks `c` up in `font8x8::BASIC_FONTS` through `UnicodeFonts::get`.
/// That table holds one glyph for each of the 128 characters `U+0000` to
/// `U+007F` and no other, so the lookup finds exactly those, each with the
/// glyph `basic_glyph` lists for it.
#[verifier::external_body]
fn basic_font_glyph(c: char) -> (glyph: Option<[u8; 8]>)
    ensures
        (c as u32) < 0x80 ==> glyph == Some(basic_glyph(c)),
        (c as u32) >= 0x80 ==> glyph is None,
{
    font8x8::BASIC_FONTS.get(c)
}

/// Bit `column` of row `row` of a glyph is set.
pub open spec fn glyph_bit(glyph: [u8; 8], row: int, column: int) -> bool {
    (glyph@[row] >> (column as u8)) & 1u8 == 1u8
}

/// The pixels a glyph inks when its top left corner is at `(x, y)` and each
/// font pixel is a `scale * scale` square: pixel `(px, py)` of the square
/// of font row `(py - y) / scale`, font column `(px - x) / scale`, when that
/// bit is set; only pixels whose coordinates fit in an `i32` count.
pub open spec fn glyph_pixels(glyph: [u8; 8], x: int, y: int, scale: int) -> spec_fn(
    int,
    int,
) -> bool {
    |px: int, py: int|
        scale > 0 && x <= px < x + 8 * scale && y <= py < y + 8 * scale && glyph_bit(
            glyph,
            (py - y) / scale,
            (px - x) / scale,
        ) && px <= i32::MAX && py <= i32::MAX
}

/// The inked pixels of the font pixels before row `row`, column `column`
/// in row-major order.
spec fn glyph_pixels_before(
    glyph: [u8; 8],
    x: int,
    y: int,
    scale: int,
    row: int,
    column: int,
) -> spec_fn(int, int) -> bool {
    |px: int, py: int|
        glyph_pixels(glyph, x, y, scale)(px, py) && ((py - y) / scale < row || ((py - y) / scale
            == row && (px - x) / scale < column))
}

/// Which `scale`-wide cell an offset `d` falls in.
proof fn lemma_cell(d: int, scale: int, cell: int)
    requires
        scale > 0,
        0 <= cell,
    ensures
        (cell * scale <= d < cell * scale + scale) <==> (0 <= d && d / scale == cell),
        0 <= d < 8 * scale ==> 0 <= d / scale < 8,
{
    if cell * scale <= d < cell * scale + scale {
        lemma_fundamental_div_mod_converse(d, scale, cell, d - cell * scale);
    }
    if 0 <= d {
        lemma_fundamental_div_mod(d, scale);
        assert(0 <= d / scale) by (nonlinear_arith)
            requires
                0 <= d,
                scale > 0,
        ;
        if d / scale == cell {
            assert(d == scale * cell + d % scale);
            assert(cell * scale == scale * cell) by (nonlinear_arith);
        }
        if d < 8 * scale {
            assert(d / scale < 8) by (nonlinear_arith)
                requires
                    d == scale * (d / scale) + d % scale,
                    0 <= d % scale,
                    d < 8 * scale,
                    scale > 0,
            ;
        }
    }
}

/// Draws a glyph with its top left corner at `(x, y)`, each font pixel a
/// `scale * scale` square of `color`; nothing when `scale <= 0`.
pub fn draw_glyph(
    framebuffer: &mut Framebuffer,
    glyph: [u8; 8],
    x: i32,
    y: i32,
    scale: i32,
    color: u32,
)
    requires
        old(framebuffer).well_formed(),
    ensures
        final(framebuffer).width == old(framebuffer).width,
        final(framebuffer).height == old(framebuffer).height,
        final(framebuffer).background_color == old(framebuffer).background_color,
        final(framebuffer).buffer@ == painted(
            old(framebuffer).buffer@,
            old(framebuffer).width as int,
            old(framebuffer).height as int,
            color,
            glyph_pixels(glyph, x as int, y as int, scale as int),
        ),
{
    let ghost w = framebuffer.width as int;
    let ghost h = framebuffer.height as int;
    let ghost before = framebuffer.buffer@;
    let ghost gx = x as int;
    let ghost gy = y as int;
    let ghost s = scale as int;
    if scale <= 0 {
        proof {
            lemma_paint_same_region(
                before,
                w,
                h,
                color,
                |px: int, py: int| false,
                glyph_pixels(glyph, gx, gy, s),
            );
            assert(before =~= painted(before, w, h, color, |px: int, py: int| false));
        }
        return;
    }
    proof {
        lemma_paint_same_region(
            before,
            w,
            h,
            color,
            |px: int, py: int| false,
            glyph_pixels_before(glyph, gx, gy, s, 0, 0),
        );
        assert(before =~= painted(before, w, h, color, |px: int, py: int| false));
    }
    let mut row: usize = 0;
    while row < 8
        invariant
            0 <= row <= 8,
            s > 0,
            s == scale as int,
            gx == x as int,
            gy == y as int,
            framebuffer.width == w,
            framebuffer.height == h,
            framebuffer.background_color == old(framebuffer).background_color,
            framebuffer.well_formed(),
            framebuffer.buffer@ == painted(
                before,
                w,
                h,
                color,
                glyph_pixels_before(glyph, gx, gy, s, row as int, 0),
            ),
        decreases 8 - row,
    {
        let bits = glyph[row];
        let mut column: u8 = 0;
        while column < 8
            invariant
                0 <= row < 8,
                0 <= column <= 8,
                s > 0,
                s == scale as int,
                gx == x as int,
                gy == y as int,
                bits == glyph@[row as int],
                framebuffer.width == w,
                framebuffer.height == h,
                framebuffer.background_color == old(framebuffer).background_color,
                framebuffer.well_formed(),
                framebuffer.buffer@ == painted(
                    before,
                    w,
                    h,
                    color,
                    glyph_pixels_before(glyph, gx, gy, s, row as int, column as int),
                ),
            decreases 8 - column,
        {
            let ghost r = row as int;
            let ghost c = column as int;
            proof {
                assert(((bits & (1u8 << column)) != 0u8) == ((bits >> column) & 1u8 == 1u8))
                    by (bit_vector)
                    requires
                        column < 8u8,
                ;
            }
            if bits & (1u8 << column) != 0 {
                proof {
                    assert(0 <= c * s <= 8 * 0x8000_0000 && 0 <= r * s <= 8 * 0x8000_0000)
                        by (nonlinear_arith)
                        requires
                            0 <= c < 8,
                            0 <= r < 8,
                            0 < s <= 0x7fff_ffff,
                    ;
                }
                let x0 = x as i64 + column as i64 * scale as i64;
                let y0 = y as i64 + row as i64 * scale as i64;
                framebuffer.fill_block(x0, y0, scale as i64, scale as i64, color);
                proof {
                    lemma_paint_union(
                        before,
                        w,
                        h,
                        color,
                        glyph_pixels_before(glyph, gx, gy, s, r, c),
                        block(x0 as int, y0 as int, s, s),
                    );
                    assert forall|px: int, py: int|
                        0 <= px < w && 0 <= py < h implies (
                    glyph_pixels_before(glyph, gx, gy, s, r, c)(px, py) || block(
                        x0 as int,
                        y0 as int,
                        s,
                        s,
                    )(px, py)) == #[trigger] glyph_pixels_before(glyph, gx, gy, s, r, c + 1)(px, py) by {
                        lemma_cell(px - gx, s, c);
                        lemma_cell(py - gy, s, r);
                        assert(c * s + s <= 8 * s && r * s + s <= 8 * s) by (nonlinear_arith)
                            requires
                                0 <= c < 8,
                                0 <= r < 8,
                                0 < s,
                        ;
                        assert(glyph_bit(glyph, r, c));
                    }
                    lemma_paint_same_region(
                        before,
                        w,
                        h,
                        color,
                        |px: int, py: int|
                            glyph_pixels_before(glyph, gx, gy, s, r, c)(px, py) || block(
                                x0 as int,
                                y0 as int,
                                s,
                                s,
                            )(px, py),
                        glyph_pixels_before(glyph, gx, gy, s, r, c + 1),
                    );
                }
            } else {
                proof {
                    lemma_paint_same_region(
                        before,
                        w,
                        h,
                        color,
                        glyph_pixels_before(glyph, gx, gy, s, r, c),
                        glyph_pixels_before(glyph, gx, gy, s, r, c + 1),
                    );
                }
            }
            column = column + 1;
        }
        proof {
            assert forall|px: int, py: int| 0 <= px < w && 0 <= py < h implies glyph_pixels_before(
                glyph,
                gx,
                gy,
                s,
                row as int,
                8,
            )(px, py) == #[trigger] glyph_pixels_before(glyph, gx, gy, s, row + 1, 0)(px, py) by {
                lemma_cell(px - gx, s, 0);
            }
            lemma_paint_same_region(
                before,
                w,
                h,
                color,
                glyph_pixels_before(glyph, gx, gy, s, row as int, 8),
                glyph_pixels_before(glyph, gx, gy, s, row + 1, 0),
            );
        }
        row = row + 1;
    }
    proof {
        assert forall|px: int, py: int| 0 <= px < w && 0 <= py < h implies glyph_pixels_before(
            glyph,
            gx,
            gy,
            s,
            8,
            0,
        )(px, py) == #[trigger] glyph_pixels(glyph, gx, gy, s)(px, py) by {
            lemma_cell(py - gy, s, 0);
        }
        lemma_paint_same_region(
            before,
            w,
            h,
            color,
            glyph_pixels_before(glyph, gx, gy, s, 8, 0),
            glyph_pixels(glyph, gx, gy, s),
        );
    }
}


/// Character `k` of `text`, drawn with its cell at `x + 9 * scale * k`,
/// inks pixel `(px, py)`: characters outside Basic Latin ink nothing.
pub open spec fn char_pixel(
    text: Seq<char>,
    x: int,
    y: int,
    scale: int,
    k: int,
    px: int,
    py: int,
) -> bool {
    (text[k] as u32) < 0x80 && glyph_pixels(basic_glyph(text[k]), x + 9 * scale * k, y, scale)(
        px,
        py,
    )
}

/// The pixels inked by the first `n` characters of `text`.
pub open spec fn text_pixels(text: Seq<char>, x: int, y: int, scale: int, n: int) -> spec_fn(
    int,
    int,
) -> bool {
    |px: int, py: int| exists|k: int| 0 <= k < n && #[trigger] char_pixel(text, x, y, scale, k, px, py)
}

/// Draws `text` from `(x, y)` in `color`, one character every `9 * scale`
/// pixels to the right, each in the 8x8 font scaled by `scale`;
/// characters outside Basic Latin leave their cell blank.
pub fn draw_text(
    framebuffer: &mut Framebuffer,
    text: &str,
    x: i32,
    y: i32,
    scale: i32,
    color: u32,
)
    requires
        old(framebuffer).well_formed(),
        text@.len() > 0 ==> i32::MIN <= 9 * scale <= i32::MAX,
        i32::MIN <= x + 9 * scale * text@.len() <= i32::MAX,
    ensures
        final(framebuffer).width == old(framebuffer).width,
        final(framebuffer).height == old(framebuffer).height,
        final(framebuffer).background_color == old(framebuffer).background_color,
        final(framebuffer).buffer@ == painted(
            old(framebuffer).buffer@,
            old(framebuffer).width as int,
            old(framebuffer).height as int,
            color,
            text_pixels(text@, x as int, y as int, scale as int, text@.len() as int),
        ),
{
    let ghost w = framebuffer.width as int;
    let ghost h = framebuffer.height as int;
    let ghost before = framebuffer.buffer@;
    let ghost all = text@;
    let ghost n = all.len() as int;
    let ghost s = scale as int;
    proof {
        lemma_paint_same_region(
            before,
            w,
            h,
            color,
            |px: int, py: int| false,
            text_pixels(all, x as int, y as int, s, 0),
        );
        assert(before =~= painted(before, w, h, color, |px: int, py: int| false));
    }
    let mut cursor_x = x;
    for c in it: text.chars()
        invariant
            it.seq() == all,
            n == all.len(),
            s == scale as int,
            n > 0 ==> i32::MIN <= 9 * s <= i32::MAX,
            i32::MIN <= x + 9 * s * n <= i32::MAX,
            cursor_x == x + 9 * s * it.index(),
            framebuffer.width == w,
            framebuffer.height == h,
            framebuffer.background_color == old(framebuffer).background_color,
            framebuffer.well_formed(),
            framebuffer.buffer@ == painted(
                before,
                w,
                h,
                color,
                text_pixels(all, x as int, y as int, s, it.index() as int),
            ),
    {
        let ghost k = it.index() as int;
        proof {
            assert(all[k] == c);
        }
        let glyph = basic_font_glyph(c);
        match glyph {
            Some(g) => {
                draw_glyph(framebuffer, g, cursor_x, y, scale, color);
                proof {
                    lemma_paint_union(
                        before,
                        w,
                        h,
                        color,
                        text_pixels(all, x as int, y as int, s, k),
                        glyph_pixels(g, cursor_x as int, y as int, s),
                    );
                    assert forall|px: int, py: int| 0 <= px < w && 0 <= py < h implies (text_pixels(
                        all,
                        x as int,
                        y as int,
                        s,
                        k,
                    )(px, py) || glyph_pixels(g, cursor_x as int, y as int, s)(px, py))
                        == #[trigger] text_pixels(all, x as int, y as int, s, k + 1)(px, py) by {
                        if glyph_pixels(g, cursor_x as int, y as int, s)(px, py) {
                            assert(char_pixel(all, x as int, y as int, s, k, px, py));
                        }
                    }
                    lemma_paint_same_region(
                        before,
                        w,
                        h,
                        color,
                        |px: int, py: int|
                            text_pixels(all, x as int, y as int, s, k)(px, py) || glyph_pixels(
                                g,
                                cursor_x as int,
                                y as int,
                                s,
                            )(px, py),
                        text_pixels(all, x as int, y as int, s, k + 1),
                    );
                }
            },
            None => {
                proof {
                    assert forall|px: int, py: int| 0 <= px < w && 0 <= py < h implies text_pixels(
                        all,
                        x as int,
                        y as int,
                        s,
                        k,
                    )(px, py) == #[trigger] text_pixels(all, x as int, y as int, s, k + 1)(
                        px,
                        py,
                    ) by {
                        assert(!char_pixel(all, x as int, y as int, s, k, px, py));
                    }
                    lemma_paint_same_region(
                        before,
                        w,
                        h,
                        color,
                        text_pixels(all, x as int, y as int, s, k),
                        text_pixels(all, x as int, y as int, s, k + 1),
                    );
                }
            },
        }
        proof {
            assert(i32::MIN <= x + 9 * s * (k + 1) <= i32::MAX) by (nonlinear_arith)
                requires
                    0 <= k < n,
                    i32::MIN <= x + 9 * s * n <= i32::MAX,
                    i32::MIN <= x <= i32::MAX,
            ;
            assert(x + 9 * s * (k + 1) == cursor_x + 9 * s) by (nonlinear_arith)
                requires
                    cursor_x == x + 9 * s * k,
            ;
        }
        cursor_x = cursor_x + 9 * scale;
    }
}


/// Drawing `first` and then `second` where `first` ends, `9 * scale *
/// first.len()` pixels to the right, inks the same pixels as drawing
/// `first + second` at once.
pub proof fn law_text_concatenates(
    first: Seq<char>,
    second: Seq<char>,
    x: int,
    y: int,
    scale: int,
    px: int,
    py: int,
)
    ensures
        text_pixels(first + second, x, y, scale, (first.len() + second.len()) as int)(px, py) == (
        text_pixels(first, x, y, scale, first.len() as int)(px, py) || text_pixels(
            second,
            x + 9 * scale * first.len(),
            y,
            scale,
            second.len() as int,
        )(px, py)),
{
    let both = first + second;
    let n = first.len() as int;
    let x2 = x + 9 * scale * n;
    if text_pixels(both, x, y, scale, n + second.len())(px, py) {
        let k = choose|k: int|
            0 <= k < n + second.len() && #[trigger] char_pixel(both, x, y, scale, k, px, py);
        if k < n {
            assert(char_pixel(first, x, y, scale, k, px, py));
        } else {
            assert(x + 9 * scale * k == x2 + 9 * scale * (k - n)) by (nonlinear_arith)
                requires
                    x2 == x + 9 * scale * n,
            ;
            assert(char_pixel(second, x2, y, scale, k - n, px, py));
        }
    }
    if text_pixels(first, x, y, scale, n)(px, py) {
        let k = choose|k: int| 0 <= k < n && #[trigger] char_pixel(first, x, y, scale, k, px, py);
        assert(char_pixel(both, x, y, scale, k, px, py));
    }
    if text_pixels(second, x2, y, scale, second.len() as int)(px, py) {
        let k = choose|k: int|
            0 <= k < second.len() && #[trigger] char_pixel(second, x2, y, scale, k, px, py);
        assert(x + 9 * scale * (k + n) == x2 + 9 * scale * k) by (nonlinear_arith)
            requires
                x2 == x + 9 * scale * n,
        ;
        assert(char_pixel(both, x, y, scale, k + n, px, py));
    }
}

/// Text inks only pixels inside its box: `9 * scale` pixels per character
/// across from `x`, `8 * scale` down from `y`.
pub proof fn law_text_stays_in_box(
    text: Seq<char>,
    x: int,
    y: int,
    scale: int,
    px: int,
    py: int,
)
    requires
        text_pixels(text, x, y, scale, text.len() as int)(px, py),
    ensures
        scale > 0,
        x <= px < x + 9 * scale * text.len(),
        y <= py < y + 8 * scale,
{
    let k = choose|k: int| 0 <= k < text.len() && #[trigger] char_pixel(text, x, y, scale, k, px, py);
    assert(x <= x + 9 * scale * k && x + 9 * scale * k + 8 * scale <= x + 9 * scale * text.len())
        by (nonlinear_arith)
        requires
            0 <= k < text.len(),
            scale > 0,
    ;
}


/// A lowercase letter and its capital are drawn with different glyphs.
pub proof fn law_letter_cases_differ(c: char)
    requires
        'a' <= c <= 'z',
    ensures
        basic_glyph(c)@ != basic_glyph(((c as u32) - 0x20) as char)@,
{
    let n = c as u32;
    let upper = ((c as u32) - 0x20) as char;
    assert(upper as u32 == n - 0x20);
    assert(basic_glyph(c)@[0] != basic_glyph(upper)@[0] || basic_glyph(c)@[1] != basic_glyph(
        upper,
    )@[1] || basic_glyph(c)@[2] != basic_glyph(upper)@[2]);
}


/// Every visible Basic Latin character, `!` to `~`, has at least one
/// inked font pixel; the space and the control characters have none.
pub proof fn law_visible_characters_have_ink(c: char)
    ensures
        (0x21 <= (c as u32) <= 0x7e) == (exists|row: int| 0 <= row < 8 && #[trigger] basic_glyph(
            c,
        )@[row] != 0),
{
    let g = basic_glyph(c)@;
    if 0x21 <= (c as u32) <= 0x7e {
        assert(g[0] != 0 || g[1] != 0 || g[2] != 0 || g[3] != 0 || g[4] != 0 || g[5] != 0 || g[6]
            != 0 || g[7] != 0);
    } else {
        assert forall|row: int| 0 <= row < 8 implies #[trigger] g[row] == 0 by {}
    }
}

/// Drawing the one-character text `c` inks exactly the font8x8 glyph of
/// `c` when `c` is Basic Latin, and nothing otherwise.
pub proof fn law_single_character(c: char, x: int, y: int, scale: int, px: int, py: int)
    ensures
        text_pixels(seq![c], x, y, scale, 1)(px, py) == ((c as u32) < 0x80 && glyph_pixels(
            basic_glyph(c),
            x,
            y,
            scale,
        )(px, py)),
{
    let t = seq![c];
    assert(x + 9 * scale * 0 == x);
    if text_pixels(t, x, y, scale, 1)(px, py) {
        let k = choose|k: int| 0 <= k < 1 && #[trigger] char_pixel(t, x, y, scale, k, px, py);
        assert(k == 0);
    }
    if (c as u32) < 0x80 && glyph_pixels(basic_glyph(c), x, y, scale)(px, py) {
        assert(char_pixel(t, x, y, scale, 0, px, py));
    }
}

/// Each set bit of the glyph of a Basic Latin character inks the top left
/// pixel of its `scale * scale` square when the character is drawn.
pub proof fn law_set_bit_inks(c: char, x: int, y: int, scale: int, row: int, column: int)
    requires
        (c as u32) < 0x80,
        0 <= row < 8,
        0 <= column < 8,
        glyph_bit(basic_glyph(c), row, column),
        scale >= 1,
        x + column * scale <= i32::MAX,
        y + row * scale <= i32::MAX,
    ensures
        text_pixels(seq![c], x, y, scale, 1)(x + column * scale, y + row * scale),
{
    let px = x + column * scale;
    let py = y + row * scale;
    lemma_fundamental_div_mod_converse(px - x, scale, column, 0);
    lemma_fundamental_div_mod_converse(py - y, scale, row, 0);
    assert(column * scale + scale <= 8 * scale && row * scale + scale <= 8 * scale && 0 <= column
        * scale && 0 <= row * scale) by (nonlinear_arith)
        requires
            0 <= row < 8,
            0 <= column < 8,
            scale >= 1,
    ;
    assert(glyph_pixels(basic_glyph(c), x, y, scale)(px, py));
    law_single_character(c, x, y, scale, px, py);
}

} // verus!
