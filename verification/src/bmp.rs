//! The bytes of a 24-bit uncompressed BMP file: a 54-byte header, then the
//! pixel rows from the bottom row of the image up, each pixel as blue,
//! green, red, each row padded with zero bytes to a multiple of four.

use vstd::prelude::*;
use vstd::arithmetic::div_mod::lemma_fundamental_div_mod_converse;
use vstd::arithmetic::div_mod::lemma_fundamental_div_mod;

verus! {

/// Little-endian bytes of the low 16 bits of `v`.
pub open spec fn le16(v: int) -> Seq<u8> {
    seq![(v % 0x100) as u8, ((v / 0x100) % 0x100) as u8]
}

/// Little-endian bytes of the low 32 bits of `v`.
pub open spec fn le32(v: int) -> Seq<u8> {
    seq![
        (v % 0x100) as u8,
        ((v / 0x100) % 0x100) as u8,
        ((v / 0x10000) % 0x100) as u8,
        ((v / 0x1000000) % 0x100) as u8,
    ]
}

/// Bytes in one stored row: three per pixel, rounded up to a multiple of four.
pub open spec fn row_stride(width: int) -> int {
    ((3 * width + 3) / 4) * 4
}

/// Bytes of pixel data: one padded row per image row.
pub open spec fn data_size(width: int, height: int) -> int {
    row_stride(width) * height
}

/// The file header and the info header, 54 bytes.
pub open spec fn bmp_header(width: int, height: int) -> Seq<u8> {
    seq![0x42u8, 0x4du8] + le32(54 + data_size(width, height)) + le16(0) + le16(0) + le32(54)
        + le32(40) + le32(width) + le32(height) + le16(1) + le16(24) + le32(0) + le32(
        data_size(width, height),
    ) + le32(2835) + le32(2835) + le32(0) + le32(0)
}

/// Byte `k` of stored row `r`: row `r` holds image row `height - 1 - r`,
/// pixel `x` at bytes `3x` (blue), `3x + 1` (green), `3x + 2` (red) of it,
/// taken from the `rgb` buffer whose pixel `(x, y)` is at `3 * (y * width + x)`;
/// the bytes after `3 * width` are zero.
pub open spec fn stored_byte(width: int, height: int, rgb: Seq<u8>, r: int, k: int) -> u8 {
    if k < 3 * width {
        rgb[((height - 1 - r) * width + k / 3) * 3 + (2 - k % 3)]
    } else {
        0
    }
}

/// All pixel data, row after stored row.
pub open spec fn bmp_pixels(width: int, height: int, rgb: Seq<u8>) -> Seq<u8> {
    Seq::new(
        data_size(width, height) as nat,
        |j: int|
            stored_byte(width, height, rgb, j / row_stride(width), j % row_stride(width)),
    )
}

/// The whole file.
pub open spec fn bmp_file(width: int, height: int, rgb: Seq<u8>) -> Seq<u8> {
    bmp_header(width, height) + bmp_pixels(width, height, rgb)
}

/// Appends the low 16 bits of `v`, little-endian.
fn push_le16(out: &mut Vec<u8>, v: u64)
    ensures
        final(out)@ == old(out)@ + le16(v as int),
{
    proof {
        assert(v & 0xffu64 == v % 0x100) by (bit_vector);
        assert((v >> 8u64) & 0xffu64 == (v / 0x100) % 0x100) by (bit_vector);
    }
    out.push((v & 0xff) as u8);
    out.push(((v >> 8u64) & 0xff) as u8);
}

/// Appends the low 32 bits of `v`, little-endian.
fn push_le32(out: &mut Vec<u8>, v: u64)
    ensures
        final(out)@ == old(out)@ + le32(v as int),
{
    proof {
        assert(v & 0xffu64 == v % 0x100) by (bit_vector);
        assert((v >> 8u64) & 0xffu64 == (v / 0x100) % 0x100) by (bit_vector);
        assert((v >> 16u64) & 0xffu64 == (v / 0x10000) % 0x100) by (bit_vector);
        assert((v >> 24u64) & 0xffu64 == (v / 0x1000000) % 0x100) by (bit_vector);
    }
    out.push((v & 0xff) as u8);
    out.push(((v >> 8u64) & 0xff) as u8);
    out.push(((v >> 16u64) & 0xff) as u8);
    out.push(((v >> 24u64) & 0xff) as u8);
}

/// Appending the next element of `s` extends a prefix of `s` by one.
proof fn lemma_take_push(prefix: Seq<u8>, s: Seq<u8>, j: int, b: u8)
    requires
        0 <= j < s.len(),
        s[j] == b,
    ensures
        (prefix + s.take(j)).push(b) == prefix + s.take(j + 1),
{
    assert((prefix + s.take(j)).push(b) =~= prefix + s.take(j + 1));
}

/// A byte after the pixels of a stored row is padding.
proof fn lemma_padding_byte(width: int, height: int, rgb: Seq<u8>, r: int, k: int)
    requires
        0 <= width,
        0 <= r < height,
        3 * width <= k < row_stride(width),
        r * row_stride(width) + row_stride(width) <= row_stride(width) * height,
    ensures
        0 <= r * row_stride(width) + k < bmp_pixels(width, height, rgb).len(),
        bmp_pixels(width, height, rgb)[r * row_stride(width) + k] == 0,
{
    let stride = row_stride(width);
    assert(0 <= r * stride) by (nonlinear_arith)
        requires
            r >= 0,
            stride >= 0,
    ;
    lemma_fundamental_div_mod_converse(r * stride + k, stride, r, k);
}

/// The BMP file of a `width * height` image whose pixel `(x, y)` is at
/// bytes `3 * (y * width + x)` (red), `+ 1` (green), `+ 2` (blue) of
/// `rgb_buffer`.
pub fn encode_bmp(width: usize, height: usize, rgb_buffer: &[u8]) -> (file: Vec<u8>)
    requires
        3 * width + 3 <= usize::MAX,
        54 + data_size(width as int, height as int) <= usize::MAX,
        width * height * 3 <= rgb_buffer@.len(),
    ensures
        file@ == bmp_file(width as int, height as int, rgb_buffer@),
{
    let ghost w = width as int;
    let ghost h = height as int;
    let ghost stride = row_stride(w);
    let padded = width * 3 + 3;
    proof {
        assert(padded & !3usize == padded - padded % 4) by (bit_vector);
        lemma_fundamental_div_mod(padded as int, 4);
    }
    let row_padded = padded & !3usize;
    assert(row_padded == stride);
    proof {
        assert(0 <= stride * h) by (nonlinear_arith)
            requires
                stride >= 0,
                h >= 0,
        ;
    }
    let data = row_padded * height;
    let file_size = 54 + data;

    let mut out: Vec<u8> = Vec::new();
    out.push(0x42u8);
    out.push(0x4du8);
    push_le32(&mut out, file_size as u64);
    push_le16(&mut out, 0);
    push_le16(&mut out, 0);
    push_le32(&mut out, 54);
    push_le32(&mut out, 40);
    push_le32(&mut out, width as u64);
    push_le32(&mut out, height as u64);
    push_le16(&mut out, 1);
    push_le16(&mut out, 24);
    push_le32(&mut out, 0);
    push_le32(&mut out, data as u64);
    push_le32(&mut out, 2835);
    push_le32(&mut out, 2835);
    push_le32(&mut out, 0);
    push_le32(&mut out, 0);
    assert(out@ =~= bmp_header(w, h));

    let len = rgb_buffer.len();
    let ghost header = out@;
    let ghost pixels = bmp_pixels(w, h, rgb_buffer@);
    let pad = row_padded - width * 3;
    let mut r: usize = 0;
    while r < height
        invariant
            0 <= r <= height,
            w == width,
            h == height,
            stride == row_stride(w),
            row_padded == stride,
            pad == stride - 3 * w,
            3 * w <= stride,
            data == stride * h,
            w * h * 3 <= len,
            len == rgb_buffer@.len(),
            header == bmp_header(w, h),
            pixels == bmp_pixels(w, h, rgb_buffer@),
            out@ == header + pixels.take(r * stride),
        decreases height - r,
    {
        assert(r * stride + stride <= stride * h) by (nonlinear_arith)
            requires
                r < h,
                stride >= 0,
        ;
        let y = height - 1 - r;
        let mut k: usize = 0;
        let mut x: usize = 0;
        while x < width
            invariant
                0 <= r < height,
                y == h - 1 - r,
                0 <= x <= width,
                k == 3 * x,
                w == width,
                h == height,
                stride == row_stride(w),
                3 * w <= stride,
                r * stride + stride <= stride * h,
                w * h * 3 <= len,
                len == rgb_buffer@.len(),
                header == bmp_header(w, h),
                pixels == bmp_pixels(w, h, rgb_buffer@),
                out@ == header + pixels.take(r * stride + k),
            decreases width - x,
        {
            let ghost j = r * stride + k;
            proof {
                assert((y * w + x) * 3 + 3 <= w * h * 3) by (nonlinear_arith)
                    requires
                        0 <= y < h,
                        0 <= x < w,
                ;
                assert(y * w <= y * w + x);
                lemma_fundamental_div_mod_converse(j, stride, r as int, k as int);
                lemma_fundamental_div_mod_converse(j + 1, stride, r as int, k + 1);
                lemma_fundamental_div_mod_converse(j + 2, stride, r as int, k + 2);
                assert(k / 3 == x && (k + 1) / 3 == x && (k + 2) / 3 == x);
            }
            let idx = (y * width + x) * 3;
            proof {
                lemma_take_push(header, pixels, j, rgb_buffer@[idx + 2]);
                lemma_take_push(header, pixels, j + 1, rgb_buffer@[idx + 1]);
                lemma_take_push(header, pixels, j + 2, rgb_buffer@[idx as int]);
            }
            out.push(rgb_buffer[idx + 2]);
            out.push(rgb_buffer[idx + 1]);
            out.push(rgb_buffer[idx]);
            k = k + 3;
            x = x + 1;
        }
        let ghost base = r * stride;
        let mut p: usize = 0;
        while p < pad
            invariant
                0 <= r < height,
                0 <= p <= pad,
                k == 3 * w + p,
                pad == stride - 3 * w,
                0 <= w,
                w == width,
                h == height,
                stride == row_stride(w),
                base == r * stride,
                base + stride <= stride * h,
                stride * h <= usize::MAX,
                header == bmp_header(w, h),
                pixels == bmp_pixels(w, h, rgb_buffer@),
                out@ == header + pixels.take(base + k),
            decreases pad - p,
        {
            proof {
                lemma_padding_byte(w, h, rgb_buffer@, r as int, k as int);
                lemma_take_push(header, pixels, base + k, 0u8);
            }
            out.push(0u8);
            k = k + 1;
            p = p + 1;
        }
        assert(r * stride + stride == (r + 1) * stride) by (nonlinear_arith);
        r = r + 1;
    }
    assert(pixels.take(h * stride) =~= pixels) by {
        assert(h * stride == stride * h) by (nonlinear_arith);
    }
    out
}


/// A stored row is the smallest multiple of four bytes that holds three
/// bytes per pixel.
pub proof fn law_row_stride(width: int)
    requires
        0 <= width,
    ensures
        row_stride(width) % 4 == 0,
        3 * width <= row_stride(width) < 3 * width + 4,
{
    lemma_fundamental_div_mod(3 * width + 3, 4);
    assert(row_stride(width) % 4 == 0) by {
        lemma_fundamental_div_mod_converse(row_stride(width), 4, (3 * width + 3) / 4, 0);
    }
}

/// The file is the 54-byte header followed by one stored row per image row.
pub proof fn law_file_length(width: int, height: int, rgb: Seq<u8>)
    requires
        0 <= width,
        0 <= height,
    ensures
        bmp_header(width, height).len() == 54,
        bmp_file(width, height, rgb).len() == 54 + row_stride(width) * height,
{
    law_row_stride(width);
    assert(0 <= row_stride(width) * height) by (nonlinear_arith)
        requires
            0 <= row_stride(width),
            0 <= height,
    ;
}

/// Pixel `(x, y)` of the image is stored, as blue, green, red, in the row
/// `height - 1 - y` rows after the header, `3 * x` bytes into it.
pub proof fn law_pixel_location(width: int, height: int, rgb: Seq<u8>, x: int, y: int)
    requires
        0 <= x < width,
        0 <= y < height,
        width * height * 3 <= rgb.len(),
    ensures
        ({
            let at = 54 + (height - 1 - y) * row_stride(width) + 3 * x;
            let src = 3 * (y * width + x);
            &&& bmp_file(width, height, rgb)[at] == rgb[src + 2]
            &&& bmp_file(width, height, rgb)[at + 1] == rgb[src + 1]
            &&& bmp_file(width, height, rgb)[at + 2] == rgb[src]
        }),
{
    let stride = row_stride(width);
    let r = height - 1 - y;
    law_row_stride(width);
    law_file_length(width, height, rgb);
    assert(0 <= r * stride && r * stride + stride <= stride * height) by (nonlinear_arith)
        requires
            0 <= r < height,
            0 <= stride,
    ;
    let j = r * stride + 3 * x;
    lemma_fundamental_div_mod_converse(j, stride, r, 3 * x);
    lemma_fundamental_div_mod_converse(j + 1, stride, r, 3 * x + 1);
    lemma_fundamental_div_mod_converse(j + 2, stride, r, 3 * x + 2);
    assert((3 * x) / 3 == x && (3 * x + 1) / 3 == x && (3 * x + 2) / 3 == x);
    assert(height - 1 - r == y);
}


/// The little-endian 16-bit number stored at byte `at`.
pub open spec fn read_le16(bytes: Seq<u8>, at: int) -> int {
    bytes[at] + 0x100 * bytes[at + 1]
}

/// The little-endian 32-bit number stored at byte `at`.
pub open spec fn read_le32(bytes: Seq<u8>, at: int) -> int {
    bytes[at] + 0x100 * bytes[at + 1] + 0x10000 * bytes[at + 2] + 0x1000000 * bytes[at + 3]
}

/// The four bytes of a 32-bit number read back as its low 32 bits.
proof fn lemma_le32_reads_back(v: u64)
    ensures
        read_le32(le32(v as int), 0) == v % 0x1_0000_0000,
{
    let b0 = v % 0x100;
    let b1 = (v / 0x100) % 0x100;
    let b2 = (v / 0x10000) % 0x100;
    let b3 = (v / 0x1000000) % 0x100;
    assert(b0 + 0x100 * b1 + 0x10000 * b2 + 0x1000000 * b3 == v % 0x1_0000_0000) by (bit_vector)
        requires
            b0 == v % 0x100,
            b1 == (v / 0x100) % 0x100,
            b2 == (v / 0x10000) % 0x100,
            b3 == (v / 0x1000000) % 0x100,
    ;
}

/// Read back, the header states what the file is: `BM`, the file's
/// length, where the pixels start (54), the info header's size (40), the
/// image's width and height, one plane, 24 bits per pixel, no compression,
/// the pixel data's length, 2835 pixels per metre both ways and no
/// palette; numbers are cut to their field's width.
pub proof fn law_header_fields(width: int, height: int, rgb: Seq<u8>)
    requires
        0 <= width <= u64::MAX,
        0 <= height <= u64::MAX,
        54 + data_size(width, height) <= u64::MAX,
    ensures
        ({
            let file = bmp_file(width, height, rgb);
            &&& file[0] == 0x42 && file[1] == 0x4d
            &&& read_le32(file, 2) == file.len() % 0x1_0000_0000
            &&& read_le16(file, 6) == 0 && read_le16(file, 8) == 0
            &&& read_le32(file, 10) == 54
            &&& read_le32(file, 14) == 40
            &&& read_le32(file, 18) == width % 0x1_0000_0000
            &&& read_le32(file, 22) == height % 0x1_0000_0000
            &&& read_le16(file, 26) == 1
            &&& read_le16(file, 28) == 24
            &&& read_le32(file, 30) == 0
            &&& read_le32(file, 34) == (file.len() - 54) % 0x1_0000_0000
            &&& read_le32(file, 38) == 2835 && read_le32(file, 42) == 2835
            &&& read_le32(file, 46) == 0 && read_le32(file, 50) == 0
        }),
{
    law_file_length(width, height, rgb);
    law_row_stride(width);
    let d = data_size(width, height);
    assert(0 <= d) by (nonlinear_arith)
        requires
            d == row_stride(width) * height,
            0 <= row_stride(width),
            0 <= height,
    ;
    let file = bmp_file(width, height, rgb);
    lemma_header_layout(width, height);
    lemma_le32_reads_back((54 + d) as u64);
    lemma_le32_reads_back(54);
    lemma_le32_reads_back(40);
    lemma_le32_reads_back(width as u64);
    lemma_le32_reads_back(height as u64);
    lemma_le32_reads_back(0);
    lemma_le32_reads_back(d as u64);
    lemma_le32_reads_back(2835);
    assert forall|k: int| 0 <= k < 54 implies file[k] == bmp_header(width, height)[k] by {}
}

/// Where each field of the header stands.
proof fn lemma_header_layout(width: int, height: int)
    ensures
        ({
            let header = bmp_header(width, height);
            let d = data_size(width, height);
            &&& header.len() == 54
            &&& header[0] == 0x42 && header[1] == 0x4d
            &&& header.subrange(2, 6) == le32(54 + d)
            &&& header.subrange(6, 8) == le16(0)
            &&& header.subrange(8, 10) == le16(0)
            &&& header.subrange(10, 14) == le32(54)
            &&& header.subrange(14, 18) == le32(40)
            &&& header.subrange(18, 22) == le32(width)
            &&& header.subrange(22, 26) == le32(height)
            &&& header.subrange(26, 28) == le16(1)
            &&& header.subrange(28, 30) == le16(24)
            &&& header.subrange(30, 34) == le32(0)
            &&& header.subrange(34, 38) == le32(d)
            &&& header.subrange(38, 42) == le32(2835)
            &&& header.subrange(42, 46) == le32(2835)
            &&& header.subrange(46, 50) == le32(0)
            &&& header.subrange(50, 54) == le32(0)
        }),
{
    let d = data_size(width, height);
    let p0 = seq![0x42u8, 0x4du8];
    let p1 = p0 + le32(54 + d);
    let p2 = p1 + le16(0);
    let p3 = p2 + le16(0);
    let p4 = p3 + le32(54);
    let p5 = p4 + le32(40);
    let p6 = p5 + le32(width);
    let p7 = p6 + le32(height);
    let p8 = p7 + le16(1);
    let p9 = p8 + le16(24);
    let p10 = p9 + le32(0);
    let p11 = p10 + le32(d);
    let p12 = p11 + le32(2835);
    let p13 = p12 + le32(2835);
    let p14 = p13 + le32(0);
    let p15 = p14 + le32(0);
    assert(bmp_header(width, height) == p15);
    assert(p0.len() == 2);
    assert(p1.len() == 6);
    assert(p2.len() == 8);
    assert(p3.len() == 10);
    assert(p4.len() == 14);
    assert(p5.len() == 18);
    assert(p6.len() == 22);
    assert(p7.len() == 26);
    assert(p8.len() == 28);
    assert(p9.len() == 30);
    assert(p10.len() == 34);
    assert(p11.len() == 38);
    assert(p12.len() == 42);
    assert(p13.len() == 46);
    assert(p14.len() == 50);
    assert(p15.len() == 54);
    lemma_tail_of_add(p0, le32(54 + d));
    lemma_front_of_add(p0, le32(54 + d));
    lemma_tail_of_add(p1, le16(0));
    lemma_front_of_add(p1, le16(0));
    lemma_tail_of_add(p2, le16(0));
    lemma_front_of_add(p2, le16(0));
    lemma_tail_of_add(p3, le32(54));
    lemma_front_of_add(p3, le32(54));
    lemma_tail_of_add(p4, le32(40));
    lemma_front_of_add(p4, le32(40));
    lemma_tail_of_add(p5, le32(width));
    lemma_front_of_add(p5, le32(width));
    lemma_tail_of_add(p6, le32(height));
    lemma_front_of_add(p6, le32(height));
    lemma_tail_of_add(p7, le16(1));
    lemma_front_of_add(p7, le16(1));
    lemma_tail_of_add(p8, le16(24));
    lemma_front_of_add(p8, le16(24));
    lemma_tail_of_add(p9, le32(0));
    lemma_front_of_add(p9, le32(0));
    lemma_tail_of_add(p10, le32(d));
    lemma_front_of_add(p10, le32(d));
    lemma_tail_of_add(p11, le32(2835));
    lemma_front_of_add(p11, le32(2835));
    lemma_tail_of_add(p12, le32(2835));
    lemma_front_of_add(p12, le32(2835));
    lemma_tail_of_add(p13, le32(0));
    lemma_front_of_add(p13, le32(0));
    lemma_tail_of_add(p14, le32(0));
    lemma_front_of_add(p14, le32(0));
    let header = p15;
    assert(header.subrange(0, 54) =~= p15);
    lemma_subrange_within(header, 54, 0, 50);
    assert(header.subrange(0, 50) == p14);
    lemma_subrange_within(header, 50, 0, 46);
    assert(header.subrange(0, 46) == p13);
    lemma_subrange_within(header, 46, 0, 42);
    assert(header.subrange(0, 42) == p12);
    lemma_subrange_within(header, 42, 0, 38);
    assert(header.subrange(0, 38) == p11);
    lemma_subrange_within(header, 38, 0, 34);
    assert(header.subrange(0, 34) == p10);
    lemma_subrange_within(header, 34, 0, 30);
    assert(header.subrange(0, 30) == p9);
    lemma_subrange_within(header, 30, 0, 28);
    assert(header.subrange(0, 28) == p8);
    lemma_subrange_within(header, 28, 0, 26);
    assert(header.subrange(0, 26) == p7);
    lemma_subrange_within(header, 26, 0, 22);
    assert(header.subrange(0, 22) == p6);
    lemma_subrange_within(header, 22, 0, 18);
    assert(header.subrange(0, 18) == p5);
    lemma_subrange_within(header, 18, 0, 14);
    assert(header.subrange(0, 14) == p4);
    lemma_subrange_within(header, 14, 0, 10);
    assert(header.subrange(0, 10) == p3);
    lemma_subrange_within(header, 10, 0, 8);
    assert(header.subrange(0, 8) == p2);
    lemma_subrange_within(header, 8, 0, 6);
    assert(header.subrange(0, 6) == p1);
    lemma_subrange_within(header, 6, 0, 2);
    assert(header.subrange(0, 2) == p0);
    assert(p0[0] == 0x42 && p0[1] == 0x4d);
    assert(header[0] == p0[0] && header[1] == p0[1]);
    lemma_subrange_within(header, 6, 2, 6);
    lemma_subrange_within(header, 8, 6, 8);
    lemma_subrange_within(header, 10, 8, 10);
    lemma_subrange_within(header, 14, 10, 14);
    lemma_subrange_within(header, 18, 14, 18);
    lemma_subrange_within(header, 22, 18, 22);
    lemma_subrange_within(header, 26, 22, 26);
    lemma_subrange_within(header, 28, 26, 28);
    lemma_subrange_within(header, 30, 28, 30);
    lemma_subrange_within(header, 34, 30, 34);
    lemma_subrange_within(header, 38, 34, 38);
    lemma_subrange_within(header, 42, 38, 42);
    lemma_subrange_within(header, 46, 42, 46);
    lemma_subrange_within(header, 50, 46, 50);
    lemma_subrange_within(header, 54, 50, 54);
}

/// The front of `a + b` is `a`.
proof fn lemma_front_of_add(a: Seq<u8>, b: Seq<u8>)
    ensures
        (a + b).subrange(0, a.len() as int) == a,
{
    assert((a + b).subrange(0, a.len() as int) =~= a);
}

/// The back of `a + b` is `b`.
proof fn lemma_tail_of_add(a: Seq<u8>, b: Seq<u8>)
    ensures
        (a + b).subrange(a.len() as int, (a.len() + b.len()) as int) == b,
{
    assert((a + b).subrange(a.len() as int, (a.len() + b.len()) as int) =~= b);
}

/// A slice of a prefix is the same slice of the whole.
proof fn lemma_subrange_within(s: Seq<u8>, n: int, i: int, j: int)
    requires
        0 <= i <= j <= n <= s.len(),
    ensures
        s.subrange(0, n).subrange(i, j) == s.subrange(i, j),
{
    assert(s.subrange(0, n).subrange(i, j) =~= s.subrange(i, j));
}

} // verus!
