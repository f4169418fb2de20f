use mazecaster::framebuffer::framebuffer_to_window;
use mazecaster::framebuffer::rgb;
use mazecaster::framebuffer::Framebuffer;

fn pixel(fb: &Framebuffer, x: usize, y: usize) -> (u8, u8, u8) {
    let i = (y * fb.width + x) * 3;
    (fb.buffer[i], fb.buffer[i + 1], fb.buffer[i + 2])
}

#[test]
fn rgb_packs_channels() {
    assert_eq!(rgb(0x12, 0x34, 0x56), 0x123456);
    assert_eq!(rgb(0, 0, 0), 0);
    assert_eq!(rgb(0xFF, 0xFF, 0xFF), 0xFFFFFF);
    assert_eq!(rgb(0x4F, 0xAE, 0x4F), 0x4FAE4F);
}

#[test]
fn rgb_keeps_overlapping_bits_and_drops_shifted_out_ones() {
    assert_eq!(rgb(0x1FF, 0, 0), 0x01FF_0000);
    assert_eq!(rgb(0x1_0000, 0, 1), 1);
    assert_eq!(rgb(0, 0x1FF, 0x1), 0x1FF01);
}

#[test]
fn unpack_color_splits_channels() {
    assert_eq!(Framebuffer::unpack_color(0xAABBCC), (0xAA, 0xBB, 0xCC));
    assert_eq!(Framebuffer::unpack_color(0xFF12_3456), (0x12, 0x34, 0x56));
    assert_eq!(Framebuffer::unpack_color(0), (0, 0, 0));
}

#[test]
fn law_unpack_after_pack_on_values() {
    for &(r, g, b) in &[(0u32, 0u32, 0u32), (1, 2, 3), (255, 0, 128), (0x4F, 0xAE, 0x4F)] {
        let (r2, g2, b2) = Framebuffer::unpack_color(rgb(r, g, b));
        assert_eq!((r2 as u32, g2 as u32, b2 as u32), (r, g, b));
    }
}

#[test]
fn law_pack_after_unpack_on_values() {
    for &c in &[0u32, 0x123456, 0xFFFF_FFFF, 0xAB00_00CD] {
        let (r, g, b) = Framebuffer::unpack_color(c);
        assert_eq!(rgb(r as u32, g as u32, b as u32), c % 0x100_0000);
    }
}

#[test]
fn new_fills_with_background() {
    let fb = Framebuffer::new(2, 2, 0x102030);
    assert_eq!(fb.width, 2);
    assert_eq!(fb.height, 2);
    assert_eq!(fb.background_color, 0x102030);
    assert_eq!(fb.buffer, vec![0x10, 0x20, 0x30, 0x10, 0x20, 0x30, 0x10, 0x20, 0x30, 0x10, 0x20, 0x30]);
}

#[test]
fn new_empty_framebuffer() {
    let fb = Framebuffer::new(0, 5, 0xFFFFFF);
    assert!(fb.buffer.is_empty());
}

#[test]
fn set_pixel_writes_one_pixel() {
    let mut fb = Framebuffer::new(3, 2, 0);
    fb.set_pixel(2, 1, 0xAABBCC);
    assert_eq!(pixel(&fb, 2, 1), (0xAA, 0xBB, 0xCC));
    let mut count = 0;
    for y in 0..2 {
        for x in 0..3 {
            if pixel(&fb, x, y) != (0, 0, 0) {
                count += 1;
            }
        }
    }
    assert_eq!(count, 1);
    assert_eq!(&fb.buffer[15..18], &[0xAA, 0xBB, 0xCC]);
}

#[test]
fn set_pixel_outside_does_nothing() {
    let mut fb = Framebuffer::new(3, 2, 0x010203);
    let before = fb.buffer.clone();
    fb.set_pixel(-1, 0, 0xFFFFFF);
    fb.set_pixel(0, -1, 0xFFFFFF);
    fb.set_pixel(3, 0, 0xFFFFFF);
    fb.set_pixel(0, 2, 0xFFFFFF);
    fb.set_pixel(i32::MAX, i32::MAX, 0xFFFFFF);
    fb.set_pixel(i32::MIN, 1, 0xFFFFFF);
    assert_eq!(fb.buffer, before);
}

#[test]
fn set_pixel_ignores_bytes_past_the_image() {
    let mut fb = Framebuffer { width: 1, height: 1, buffer: vec![0; 5], background_color: 0 };
    fb.set_pixel(0, 0, 0x010203);
    assert_eq!(fb.buffer, vec![1, 2, 3, 0, 0]);
}

#[test]
fn clear_restores_background() {
    let mut fb = Framebuffer::new(2, 1, 0x0A0B0C);
    fb.set_pixel(0, 0, 0xFFFFFF);
    fb.background_color = 0x112233;
    fb.clear();
    assert_eq!(fb.buffer, vec![0x11, 0x22, 0x33, 0x11, 0x22, 0x33]);
}

#[test]
fn window_packs_each_pixel() {
    let mut fb = Framebuffer::new(2, 2, 0x000000);
    fb.set_pixel(1, 0, 0x123456);
    fb.set_pixel(0, 1, 0xFEDCBA);
    assert_eq!(framebuffer_to_window(&fb), vec![0, 0x123456, 0xFEDCBA, 0]);
}

#[test]
fn law_window_reads_written_pixel_on_values() {
    let mut fb = Framebuffer::new(4, 3, 0x222222);
    fb.set_pixel(3, 2, 0xAB12_3456);
    let out = framebuffer_to_window(&fb);
    assert_eq!(out[2 * 4 + 3], 0x123456);
}

#[test]
fn law_write_keeps_other_pixels_on_values() {
    let mut fb = Framebuffer::new(4, 3, 0x222222);
    fb.set_pixel(1, 1, 0x999999);
    let out = framebuffer_to_window(&fb);
    for q in 0..12 {
        if q != 5 {
            assert_eq!(out[q], 0x222222);
        }
    }
}

#[test]
fn law_repaint_overrides_on_values() {
    let mut fb = Framebuffer::new(2, 2, 0);
    fb.set_pixel(1, 1, 0x111111);
    fb.set_pixel(1, 1, 0x445566);
    assert_eq!(framebuffer_to_window(&fb)[3], 0x445566);
}

#[test]
fn law_cleared_window_on_values() {
    let mut fb = Framebuffer::new(3, 3, 0xFF00_ABCD);
    fb.set_pixel(1, 2, 0x123456);
    fb.clear();
    assert!(framebuffer_to_window(&fb).iter().all(|&p| p == 0x00ABCD));
}
