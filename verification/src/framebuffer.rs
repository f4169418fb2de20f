//! Packed `0xRRGGBB` colours and an RGB framebuffer of `width * height`
//! pixels, three bytes (red, green, blue) per pixel, row by row.

use vstd::prelude::*;
use vstd::arithmetic::div_mod::lemma_fundamental_div_mod_converse;
use vstd::arithmetic::div_mod::lemma_fundamental_div_mod;

verus! {

/// Red channel of a packed colour: bits 16..24.
pub open spec fn red(color: u32) -> u8 {
    ((color / 0x10000) % 0x100) as u8
}

/// Green channel of a packed colour: bits 8..16.
pub open spec fn green(color: u32) -> u8 {
    ((color / 0x100) % 0x100) as u8
}

/// Blue channel of a packed colour: bits 0..8.
pub open spec fn blue(color: u32) -> u8 {
    (color % 0x100) as u8
}

/// Channel `k` (0 red, 1 green, 2 blue) of a packed colour.
pub open spec fn channel(color: u32, k: int) -> u8 {
    if k == 0 {
        red(color)
    } else if k == 1 {
        green(color)
    } else {
        blue(color)
    }
}

/// `(r << 16) | (g << 8) | b` on `u32`, bits shifted out on the left dropped.
pub open spec fn pack_rgb(r: u32, g: u32, b: u32) -> u32 {
    (r << 16u32) | (g << 8u32) | b
}

/// Packs three channels into `0xRRGGBB`.
pub fn rgb(r: u32, g: u32, b: u32) -> (color: u32)
    ensures
        color == pack_rgb(r, g, b),
        r < 0x100 && g < 0x100 && b < 0x100 ==> color == r * 0x10000 + g * 0x100 + b,
{
    proof {
        assert(r < 0x100 && g < 0x100 && b < 0x100 ==> (r << 16u32) | (g << 8u32) | b == r
            * 0x10000 + g * 0x100 + b) by (bit_vector);
    }
    (r << 16u32) | (g << 8u32) | b
}


/// A `width * height` RGB image; pixel `(x, y)` takes bytes
/// `3 * (y * width + x)` to `3 * (y * width + x) + 2` of `buffer`.
pub struct Framebuffer {
    pub width: usize,
    pub height: usize,
    pub buffer: Vec<u8>,
    pub background_color: u32,
}

/// The bytes of `buf` after every pixel `(x, y)` of a `width * height`
/// image with `region(x, y)` is set to `color`; other bytes are kept.
pub open spec fn painted(
    buf: Seq<u8>,
    width: int,
    height: int,
    color: u32,
    region: spec_fn(int, int) -> bool,
) -> Seq<u8> {
    Seq::new(
        buf.len(),
        |i: int|
            if i < width * height * 3 && region((i / 3) % width, (i / 3) / width) {
                channel(color, i % 3)
            } else {
                buf[i]
            },
    )
}

/// The single pixel `(x, y)`.
pub open spec fn at(x: int, y: int) -> spec_fn(int, int) -> bool {
    |px: int, py: int| px == x && py == y
}

/// Every pixel.
pub open spec fn everywhere() -> spec_fn(int, int) -> bool {
    |px: int, py: int| true
}

/// Byte `i` of an image `width` pixels wide belongs to pixel `(x, y)`.
pub proof fn lemma_pixel_of_byte(width: int, height: int, i: int, x: int, y: int)
    requires
        0 <= i < width * height * 3,
        0 <= x < width,
        0 <= y,
    ensures
        0 <= (i / 3) % width < width,
        0 <= (i / 3) / width < height,
        ((i / 3) % width == x && (i / 3) / width == y) <==> i / 3 == y * width + x,
{
    assert(width > 0) by (nonlinear_arith)
        requires
            0 <= i < width * height * 3,
            0 <= x < width,
    ;
    let q = i / 3;
    assert(q < width * height);
    lemma_fundamental_div_mod(q, width);
    assert(q / width < height) by (nonlinear_arith)
        requires
            q == width * (q / width) + q % width,
            0 <= q % width,
            q < width * height,
            width > 0,
    ;
    assert(0 <= q / width) by (nonlinear_arith)
        requires
            q >= 0,
            width > 0,
    ;
    if q == y * width + x {
        lemma_fundamental_div_mod_converse(q, width, y, x);
    }
    if q % width == x && q / width == y {
        assert(q == y * width + x) by (nonlinear_arith)
            requires
                q == width * (q / width) + q % width,
                q % width == x,
                q / width == y,
        ;
    }
}

/// A byte's pixel index is recovered from its coordinates.
proof fn lemma_pixel_index_of_byte(width: int, height: int, i: int)
    requires
        0 <= i < width * height * 3,
        0 <= width,
        0 <= height,
    ensures
        width > 0,
        ((i / 3) / width) * width + (i / 3) % width == i / 3,
        i / 3 < width * height,
{
    assert(width > 0) by (nonlinear_arith)
        requires
            0 <= i < width * height * 3,
            0 <= width,
            0 <= height,
    ;
    lemma_pixel_of_byte(width, height, i, 0, 0);
    lemma_fundamental_div_mod(i / 3, width);
    assert(((i / 3) / width) * width == width * ((i / 3) / width)) by (nonlinear_arith);
}

/// The packed `0xRRGGBB` value of pixel number `q` (row-major) of `buf`.
pub open spec fn window_pixel(buf: Seq<u8>, q: int) -> int {
    buf[3 * q] * 0x10000 + buf[3 * q + 1] * 0x100 + buf[3 * q + 2]
}

/// Painting two regions one after the other in one colour paints their union.
pub proof fn lemma_paint_union(
    buf: Seq<u8>,
    width: int,
    height: int,
    color: u32,
    first: spec_fn(int, int) -> bool,
    second: spec_fn(int, int) -> bool,
)
    ensures
        painted(painted(buf, width, height, color, first), width, height, color, second)
            == painted(buf, width, height, color, |px: int, py: int| first(px, py) || second(px, py)),
{
    assert(painted(painted(buf, width, height, color, first), width, height, color, second)
        =~= painted(buf, width, height, color, |px: int, py: int| first(px, py) || second(px, py)));
}

/// Regions that agree on every pixel of the image paint alike.
pub proof fn lemma_paint_same_region(
    buf: Seq<u8>,
    width: int,
    height: int,
    color: u32,
    first: spec_fn(int, int) -> bool,
    second: spec_fn(int, int) -> bool,
)
    requires
        0 <= width,
        0 <= height,
        forall|px: int, py: int|
            0 <= px < width && 0 <= py < height ==> #[trigger] first(px, py) == #[trigger] second(
                px,
                py,
            ),
    ensures
        painted(buf, width, height, color, first) == painted(buf, width, height, color, second),
{
    assert forall|i: int| 0 <= i < buf.len() implies painted(buf, width, height, color, first)[i]
        == painted(buf, width, height, color, second)[i] by {
        if i < width * height * 3 {
            lemma_pixel_of_byte(width, height, i, 0, 0);
        }
    }
    assert(painted(buf, width, height, color, first) =~= painted(
        buf,
        width,
        height,
        color,
        second,
    ));
}

/// The pixels `(px, py)` with `x0 <= px < x0 + w`, `y0 <= py < y0 + h`
/// whose coordinates fit in an `i32`.
pub open spec fn block(x0: int, y0: int, w: int, h: int) -> spec_fn(int, int) -> bool {
    |px: int, py: int| x0 <= px < x0 + w && y0 <= py < y0 + h && px <= i32::MAX && py <= i32::MAX
}

/// The bytes of `buf` after every pixel `(x, y)` of a `width * height`
/// image for which `colors(x, y)` is `Some(c)` is set to `c`; other bytes
/// are kept.
pub open spec fn recolored(
    buf: Seq<u8>,
    width: int,
    height: int,
    colors: spec_fn(int, int) -> Option<u32>,
) -> Seq<u8> {
    Seq::new(
        buf.len(),
        |i: int|
            if i < width * height * 3 && colors((i / 3) % width, (i / 3) / width) is Some {
                channel(colors((i / 3) % width, (i / 3) / width)->0, i % 3)
            } else {
                buf[i]
            },
    )
}

/// Painting a region in one colour recolours it.
pub proof fn lemma_painted_is_recolored(
    buf: Seq<u8>,
    width: int,
    height: int,
    color: u32,
    region: spec_fn(int, int) -> bool,
)
    ensures
        painted(buf, width, height, color, region) == recolored(
            buf,
            width,
            height,
            |px: int, py: int|
                if region(px, py) {
                    Some(color)
                } else {
                    None
                },
        ),
{
    assert(painted(buf, width, height, color, region) =~= recolored(
        buf,
        width,
        height,
        |px: int, py: int|
            if region(px, py) {
                Some(color)
            } else {
                None
            },
    ));
}

/// Recolouring twice is recolouring once, the second colours winning.
pub proof fn lemma_recolor_twice(
    buf: Seq<u8>,
    width: int,
    height: int,
    first: spec_fn(int, int) -> Option<u32>,
    second: spec_fn(int, int) -> Option<u32>,
)
    ensures
        recolored(recolored(buf, width, height, first), width, height, second) == recolored(
            buf,
            width,
            height,
            |px: int, py: int|
                if second(px, py) is Some {
                    second(px, py)
                } else {
                    first(px, py)
                },
        ),
{
    assert(recolored(recolored(buf, width, height, first), width, height, second) =~= recolored(
        buf,
        width,
        height,
        |px: int, py: int|
            if second(px, py) is Some {
                second(px, py)
            } else {
                first(px, py)
            },
    ));
}

/// Colourings that agree on every pixel of the image recolour alike.
pub proof fn lemma_recolor_same(
    buf: Seq<u8>,
    width: int,
    height: int,
    first: spec_fn(int, int) -> Option<u32>,
    second: spec_fn(int, int) -> Option<u32>,
)
    requires
        0 <= width,
        0 <= height,
        forall|px: int, py: int|
            0 <= px < width && 0 <= py < height ==> #[trigger] first(px, py) == #[trigger] second(
                px,
                py,
            ),
    ensures
        recolored(buf, width, height, first) == recolored(buf, width, height, second),
{
    assert forall|i: int| 0 <= i < buf.len() implies recolored(buf, width, height, first)[i]
        == recolored(buf, width, height, second)[i] by {
        if i < width * height * 3 {
            lemma_pixel_of_byte(width, height, i, 0, 0);
        }
    }
    assert(recolored(buf, width, height, first) =~= recolored(buf, width, height, second));
}

impl Framebuffer {
    /// The buffer holds at least `width * height * 3` bytes.
    pub open spec fn well_formed(&self) -> bool {
        self.width * self.height * 3 <= self.buffer@.len()
    }

    /// Splits a packed colour into its red, green and blue bytes.
    pub fn unpack_color(color: u32) -> (rgb: (u8, u8, u8))
        ensures
            rgb == (red(color), green(color), blue(color)),
    {
        proof {
            assert((color >> 16u32) & 255u32 == (color / 0x10000) % 0x100) by (bit_vector);
            assert((color >> 8u32) & 255u32 == (color / 0x100) % 0x100) by (bit_vector);
            assert(color & 255u32 == color % 0x100) by (bit_vector);
        }
        let r = ((color >> 16u32) & 255u32) as u8;
        let g = ((color >> 8u32) & 255u32) as u8;
        let b = (color & 255u32) as u8;
        (r, g, b)
    }

    /// A `width * height` image filled with `background_color`.
    pub fn new(width: usize, height: usize, background_color: u32) -> (fb: Framebuffer)
        requires
            width * height * 3 <= isize::MAX,
        ensures
            fb.width == width,
            fb.height == height,
            fb.background_color == background_color,
            fb.well_formed(),
            fb.buffer@ == Seq::new(
                (width * height * 3) as nat,
                |i: int| channel(background_color, i % 3),
            ),
    {
        let mut fb = Framebuffer {
            width,
            height,
            buffer: vec![0u8; width * height * 3],
            background_color,
        };
        fb.clear();
        proof {
            let w = width as int;
            let h = height as int;
            assert forall|i: int| 0 <= i < w * h * 3 implies fb.buffer@[i] == channel(
                background_color,
                i % 3,
            ) by {
                lemma_pixel_index_of_byte(w, h, i);
            }
            assert(fb.buffer@ =~= Seq::new(
                (width * height * 3) as nat,
                |i: int| channel(background_color, i % 3),
            ));
        }
        fb
    }

    /// Fills every pixel with `background_color`.
    pub fn clear(&mut self)
        requires
            old(self).well_formed(),
        ensures
            final(self).width == old(self).width,
            final(self).height == old(self).height,
            final(self).background_color == old(self).background_color,
            final(self).buffer@ == painted(
                old(self).buffer@,
                old(self).width as int,
                old(self).height as int,
                old(self).background_color,
                everywhere(),
            ),
    {
        let (r, g, b) = Self::unpack_color(self.background_color);
        let ghost w = self.width as int;
        let ghost h = self.height as int;
        let ghost c = self.background_color;
        let ghost before = self.buffer@;
        let len = self.buffer.len();
        proof {
            assert(w * h <= w * h * 3) by (nonlinear_arith)
                requires
                    w >= 0,
                    h >= 0,
            ;
        }
        let n = self.width * self.height;
        let mut i: usize = 0;
        while i < n
            invariant
                0 <= i <= n,
                n == w * h,
                w * h * 3 <= len,
                len == self.buffer@.len(),
                before.len() == len,
                self.width == w,
                self.height == h,
                self.background_color == c,
                r == red(c),
                g == green(c),
                b == blue(c),
                self.buffer@ == painted(
                    before,
                    w,
                    h,
                    c,
                    |px: int, py: int| py * w + px < i,
                ),
            decreases n - i,
        {
            let ghost prev = self.buffer@;
            self.buffer.set(i * 3, r);
            self.buffer.set(i * 3 + 1, g);
            self.buffer.set(i * 3 + 2, b);
            proof {
                assert forall|k: int| 0 <= k < len implies self.buffer@[k] == painted(
                    before,
                    w,
                    h,
                    c,
                    |px: int, py: int| py * w + px < i + 1,
                )[k] by {
                    if k < w * h * 3 {
                        lemma_pixel_index_of_byte(w, h, k);
                    }
                }
                assert(self.buffer@ =~= painted(
                    before,
                    w,
                    h,
                    c,
                    |px: int, py: int| py * w + px < i + 1,
                ));
            }
            i = i + 1;
        }
        proof {
            assert forall|k: int| 0 <= k < len implies self.buffer@[k] == painted(
                before,
                w,
                h,
                c,
                everywhere(),
            )[k] by {
                if k < w * h * 3 {
                    lemma_pixel_index_of_byte(w, h, k);
                }
            }
            assert(self.buffer@ =~= painted(before, w, h, c, everywhere()));
        }
    }

    /// Sets every pixel of `block(x0, y0, w, h)` that lies in the image to
    /// `color`, one `set_pixel` after another.
    pub(crate) fn fill_block(&mut self, x0: i64, y0: i64, w: i64, h: i64, color: u32)
        requires
            old(self).well_formed(),
            i64::MIN <= x0 + w <= i64::MAX,
            i64::MIN <= y0 + h <= i64::MAX,
        ensures
            final(self).width == old(self).width,
            final(self).height == old(self).height,
            final(self).background_color == old(self).background_color,
            final(self).buffer@ == painted(
                old(self).buffer@,
                old(self).width as int,
                old(self).height as int,
                color,
                block(x0 as int, y0 as int, w as int, h as int),
            ),
    {
        let ghost bw = self.width as int;
        let ghost bh = self.height as int;
        let ghost before = self.buffer@;
        let limit: i64 = 0x8000_0000;
        let x_cap: i64 = if self.width as u64 >= 0x8000_0000u64 { limit } else { self.width as i64 };
        let y_cap: i64 = if self.height as u64 >= 0x8000_0000u64 { limit } else { self.height as i64 };
        let xs: i64 = if x0 < 0 { 0 } else { x0 };
        let ys: i64 = if y0 < 0 { 0 } else { y0 };
        let xe: i64 = if x0 + w < x_cap { x0 + w } else { x_cap };
        let ye: i64 = if y0 + h < y_cap { y0 + h } else { y_cap };
        proof {
            lemma_paint_same_region(
                before,
                bw,
                bh,
                color,
                |qx: int, qy: int| false,
                |qx: int, qy: int| xs <= qx < xe && ys <= qy < ys,
            );
            assert(before =~= painted(before, bw, bh, color, |qx: int, qy: int| false));
        }
        let mut py: i64 = ys;
        while py < ye
            invariant
                ys <= py,
                py == ys || py <= ye,
                0 <= xs,
                0 <= ys,
                xe <= 0x8000_0000,
                ye <= 0x8000_0000,
                self.width == bw,
                self.height == bh,
                self.background_color == old(self).background_color,
                self.well_formed(),
                self.buffer@.len() == before.len(),
                self.buffer@ == painted(
                    before,
                    bw,
                    bh,
                    color,
                    |qx: int, qy: int| xs <= qx < xe && ys <= qy < py,
                ),
            decreases ye - py,
        {
            let mut px: i64 = xs;
            while px < xe
                invariant
                    ys <= py < ye,
                    xs <= px,
                    xs < xe ==> px <= xe,
                    0 <= xs,
                    0 <= ys,
                    xe <= 0x8000_0000,
                    ye <= 0x8000_0000,
                    self.width == bw,
                    self.height == bh,
                    self.background_color == old(self).background_color,
                    self.well_formed(),
                    self.buffer@.len() == before.len(),
                    self.buffer@ == painted(
                        before,
                        bw,
                        bh,
                        color,
                        |qx: int, qy: int|
                            xs <= qx < xe && (ys <= qy < py || (qy == py && xs <= qx < px)),
                    ),
                decreases xe - px,
            {
                self.set_pixel(px as i32, py as i32, color);
                proof {
                    lemma_paint_union(
                        before,
                        bw,
                        bh,
                        color,
                        |qx: int, qy: int|
                            xs <= qx < xe && (ys <= qy < py || (qy == py && xs <= qx < px)),
                        at(px as int, py as int),
                    );
                    lemma_paint_same_region(
                        before,
                        bw,
                        bh,
                        color,
                        |qx: int, qy: int|
                            (xs <= qx < xe && (ys <= qy < py || (qy == py && xs <= qx < px))) || (
                            qx == px && qy == py),
                        |qx: int, qy: int|
                            xs <= qx < xe && (ys <= qy < py || (qy == py && xs <= qx < px + 1)),
                    );
                }
                px = px + 1;
            }
            proof {
                lemma_paint_same_region(
                    before,
                    bw,
                    bh,
                    color,
                    |qx: int, qy: int|
                        xs <= qx < xe && (ys <= qy < py || (qy == py && xs <= qx < px)),
                    |qx: int, qy: int| xs <= qx < xe && ys <= qy < py + 1,
                );
            }
            py = py + 1;
        }
        proof {
            let done = |qx: int, qy: int| xs <= qx < xe && ys <= qy < py;
            let whole = block(x0 as int, y0 as int, w as int, h as int);
            assert(x_cap == if bw >= 0x8000_0000 { 0x8000_0000 } else { bw });
            assert(y_cap == if bh >= 0x8000_0000 { 0x8000_0000 } else { bh });
            assert forall|qx: int, qy: int| 0 <= qx < bw && 0 <= qy < bh implies #[trigger] done(
                qx,
                qy,
            ) == #[trigger] whole(qx, qy) by {
                if ys < ye {
                    assert(py == ye);
                }
                assert(xs == if x0 < 0 { 0 } else { x0 as int });
                assert(ys == if y0 < 0 { 0 } else { y0 as int });
                assert(xe == if x0 + w < x_cap { x0 + w } else { x_cap as int });
                assert(ye == if y0 + h < y_cap { y0 + h } else { y_cap as int });
            }
            lemma_paint_same_region(before, bw, bh, color, done, whole);
        }
    }

    /// Sets pixel `(x, y)` to `color`; does nothing when the pixel lies
    /// outside the image.
    pub fn set_pixel(&mut self, x: i32, y: i32, color: u32)
        requires
            old(self).well_formed(),
        ensures
            final(self).width == old(self).width,
            final(self).height == old(self).height,
            final(self).background_color == old(self).background_color,
            final(self).buffer@ == painted(
                old(self).buffer@,
                old(self).width as int,
                old(self).height as int,
                color,
                at(x as int, y as int),
            ),
    {
        let ghost w = self.width as int;
        let ghost h = self.height as int;
        if x < 0 || y < 0 || x as usize >= self.width || y as usize >= self.height {
            proof {
                assert forall|i: int| 0 <= i < self.buffer@.len() implies self.buffer@[i] == painted(
                    self.buffer@,
                    w,
                    h,
                    color,
                    at(x as int, y as int),
                )[i] by {
                    if i < w * h * 3 {
                        lemma_pixel_of_byte(w, h, i, 0, 0);
                    }
                }
                assert(self.buffer@ =~= painted(self.buffer@, w, h, color, at(x as int, y as int)));
            }
            return;
        }
        let (r, g, b) = Self::unpack_color(color);
        let len = self.buffer.len();
        let ghost q = y * w + x;
        proof {
            assert(0 <= q < w * h) by (nonlinear_arith)
                requires
                    q == y * w + x,
                    0 <= x < w,
                    0 <= y < h,
            ;
            assert(q * 3 + 3 <= w * h * 3) by (nonlinear_arith)
                requires
                    q < w * h,
            ;
            assert(y * w <= q);
            assert(q * 3 + 3 <= len);
        }
        let idx = (y as usize * self.width + x as usize) * 3;
        let ghost before = self.buffer@;
        self.buffer.set(idx, r);
        self.buffer.set(idx + 1, g);
        self.buffer.set(idx + 2, b);
        proof {
            assert forall|i: int| 0 <= i < self.buffer@.len() implies self.buffer@[i] == painted(
                before,
                w,
                h,
                color,
                at(x as int, y as int),
            )[i] by {
                if i < w * h * 3 {
                    lemma_pixel_of_byte(w, h, i, x as int, y as int);
                }
            }
            assert(self.buffer@ =~= painted(before, w, h, color, at(x as int, y as int)));
        }
    }
}


/// One packed `0xRRGGBB` word per pixel, row by row.
pub fn framebuffer_to_window(framebuffer: &Framebuffer) -> (output: Vec<u32>)
    requires
        framebuffer.well_formed(),
    ensures
        output@.len() == framebuffer.width * framebuffer.height,
        forall|q: int|
            0 <= q < output@.len() ==> output@[q] as int == #[trigger] window_pixel(
                framebuffer.buffer@,
                q,
            ),
{
    let ghost w = framebuffer.width as int;
    let ghost h = framebuffer.height as int;
    proof {
        assert(w * h <= w * h * 3) by (nonlinear_arith)
            requires
                w >= 0,
                h >= 0,
        ;
    }
    let len = framebuffer.buffer.len();
    let n = framebuffer.width * framebuffer.height;
    let mut output: Vec<u32> = Vec::new();
    let mut i: usize = 0;
    while i < n
        invariant
            0 <= i <= n,
            n == w * h,
            w == framebuffer.width,
            h == framebuffer.height,
            w * h * 3 <= len,
            len == framebuffer.buffer@.len(),
            output@.len() == i,
            forall|q: int|
                0 <= q < i ==> output@[q] as int == #[trigger] window_pixel(
                    framebuffer.buffer@,
                    q,
                ),
        decreases n - i,
    {
        let r = framebuffer.buffer[i * 3] as u32;
        let g = framebuffer.buffer[i * 3 + 1] as u32;
        let b = framebuffer.buffer[i * 3 + 2] as u32;
        let pixel = rgb(r, g, b);
        output.push(pixel);
        i = i + 1;
    }
    output
}


/// Splitting a packed colour gives back the channels that were packed.
pub proof fn law_unpack_after_pack(r: u32, g: u32, b: u32)
    requires
        r < 0x100,
        g < 0x100,
        b < 0x100,
    ensures
        red(pack_rgb(r, g, b)) == r,
        green(pack_rgb(r, g, b)) == g,
        blue(pack_rgb(r, g, b)) == b,
{
    let v = pack_rgb(r, g, b);
    assert(v / 0x10000 % 0x100 == r && v / 0x100 % 0x100 == g && v % 0x100 == b) by (bit_vector)
        requires
            v == (r << 16u32) | (g << 8u32) | b,
            r < 0x100,
            g < 0x100,
            b < 0x100,
    ;
}

/// Packing the channels of a colour gives back its low 24 bits.
pub proof fn law_pack_after_unpack(color: u32)
    ensures
        pack_rgb(red(color) as u32, green(color) as u32, blue(color) as u32) == color % 0x1000000,
{
    let r = red(color) as u32;
    let g = green(color) as u32;
    let b = blue(color) as u32;
    assert(r == (color / 0x10000) % 0x100);
    assert(g == (color / 0x100) % 0x100);
    assert(b == color % 0x100);
    assert((r << 16u32) | (g << 8u32) | b == color % 0x1000000) by (bit_vector)
        requires
            r == (color / 0x10000) % 0x100,
            g == (color / 0x100) % 0x100,
            b == color % 0x100,
    ;
}

/// The three channels of a colour weighted by place give its low 24 bits.
proof fn lemma_channels_sum(color: u32)
    ensures
        red(color) * 0x10000 + green(color) * 0x100 + blue(color) == color % 0x1000000,
{
    assert(((color / 0x10000) % 0x100) * 0x10000 + ((color / 0x100) % 0x100) * 0x100 + color
        % 0x100 == color % 0x1000000) by (bit_vector);
}

/// Reading back a pixel that was just written gives the colour written,
/// cut to 24 bits.
pub proof fn law_window_reads_written_pixel(
    buf: Seq<u8>,
    width: int,
    height: int,
    x: int,
    y: int,
    color: u32,
)
    requires
        width * height * 3 <= buf.len(),
        0 <= x < width,
        0 <= y < height,
    ensures
        window_pixel(painted(buf, width, height, color, at(x, y)), y * width + x) == color
            % 0x1000000,
{
    let q = y * width + x;
    assert(0 <= q < width * height && 3 * q + 3 <= width * height * 3) by (nonlinear_arith)
        requires
            q == y * width + x,
            0 <= x < width,
            0 <= y < height,
    ;
    lemma_pixel_of_byte(width, height, 3 * q, x, y);
    lemma_pixel_of_byte(width, height, 3 * q + 1, x, y);
    lemma_pixel_of_byte(width, height, 3 * q + 2, x, y);
    lemma_channels_sum(color);
}

/// Writing one pixel leaves every other pixel as it was.
pub proof fn law_write_keeps_other_pixels(
    buf: Seq<u8>,
    width: int,
    height: int,
    x: int,
    y: int,
    color: u32,
    q: int,
)
    requires
        width * height * 3 <= buf.len(),
        0 <= q < width * height,
        q != y * width + x,
        0 <= x < width,
        0 <= y,
    ensures
        window_pixel(painted(buf, width, height, color, at(x, y)), q) == window_pixel(buf, q),
{
    assert(3 * q + 3 <= width * height * 3) by (nonlinear_arith)
        requires
            q < width * height,
    ;
    lemma_pixel_of_byte(width, height, 3 * q, x, y);
    lemma_pixel_of_byte(width, height, 3 * q + 1, x, y);
    lemma_pixel_of_byte(width, height, 3 * q + 2, x, y);
}

/// Writing a pixel outside the image changes nothing.
pub proof fn law_write_outside_is_noop(
    buf: Seq<u8>,
    width: int,
    height: int,
    x: int,
    y: int,
    color: u32,
)
    requires
        0 <= width,
        0 <= height,
        !(0 <= x < width && 0 <= y < height),
    ensures
        painted(buf, width, height, color, at(x, y)) == buf,
{
    assert forall|i: int| 0 <= i < buf.len() implies painted(
        buf,
        width,
        height,
        color,
        at(x, y),
    )[i] == buf[i] by {
        if i < width * height * 3 {
            lemma_pixel_index_of_byte(width, height, i);
            lemma_pixel_of_byte(width, height, i, 0, 0);
        }
    }
    assert(painted(buf, width, height, color, at(x, y)) =~= buf);
}

/// Painting a region twice keeps only the second colour.
pub proof fn law_repaint_overrides(
    buf: Seq<u8>,
    width: int,
    height: int,
    first: u32,
    second: u32,
    region: spec_fn(int, int) -> bool,
)
    ensures
        painted(painted(buf, width, height, first, region), width, height, second, region)
            == painted(buf, width, height, second, region),
{
    assert(painted(painted(buf, width, height, first, region), width, height, second, region)
        =~= painted(buf, width, height, second, region));
}

/// Recolouring with the same colours a second time changes nothing: drawing
/// the same picture twice leaves what drawing it once does.
pub proof fn law_redraw_changes_nothing(
    buf: Seq<u8>,
    width: int,
    height: int,
    colors: spec_fn(int, int) -> Option<u32>,
)
    ensures
        recolored(recolored(buf, width, height, colors), width, height, colors) == recolored(
            buf,
            width,
            height,
            colors,
        ),
{
    assert(recolored(recolored(buf, width, height, colors), width, height, colors) =~= recolored(
        buf,
        width,
        height,
        colors,
    ));
}

/// After a clear, every pixel reads back as the background colour, cut to
/// 24 bits.
pub proof fn law_cleared_window(buf: Seq<u8>, width: int, height: int, background: u32, q: int)
    requires
        0 <= width,
        0 <= height,
        width * height * 3 <= buf.len(),
        0 <= q < width * height,
    ensures
        window_pixel(painted(buf, width, height, background, everywhere()), q) == background
            % 0x1000000,
{
    assert(3 * q + 3 <= width * height * 3) by (nonlinear_arith)
        requires
            q < width * height,
    ;
    lemma_channels_sum(background);
}

} // verus!
