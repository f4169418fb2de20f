use mazecaster::framebuffer::Framebuffer;
use mazecaster::text::draw_glyph;
use mazecaster::text::draw_text;

fn inked(fb: &Framebuffer) -> Vec<(usize, usize)> {
    let mut v = Vec::new();
    for y in 0..fb.height {
        for x in 0..fb.width {
            let i = (y * fb.width + x) * 3;
            if fb.buffer[i..i + 3] != [0, 0, 0] {
                v.push((x, y));
            }
        }
    }
    v
}

const A: [u8; 8] = [0x0C, 0x1E, 0x33, 0x33, 0x3F, 0x33, 0x33, 0x00];

#[test]
fn glyph_bits_become_pixels() {
    let mut fb = Framebuffer::new(8, 8, 0);
    draw_glyph(&mut fb, A, 0, 0, 1, 0xFFFFFF);
    let px = inked(&fb);
    assert!(px.contains(&(2, 0)) && px.contains(&(3, 0)));
    assert!(!px.contains(&(0, 0)) && !px.contains(&(4, 0)));
    assert!(px.contains(&(0, 2)) && px.contains(&(1, 2)) && px.contains(&(4, 2)));
    assert!(!px.iter().any(|&(_, y)| y == 7));
    let expected: usize = A.iter().map(|b| b.count_ones() as usize).sum();
    assert_eq!(px.len(), expected);
}

#[test]
fn glyph_scaled() {
    let mut fb = Framebuffer::new(20, 20, 0);
    draw_glyph(&mut fb, [0x01, 0, 0, 0, 0, 0, 0, 0], 3, 4, 2, 0x010101);
    assert_eq!(inked(&fb), vec![(3, 4), (4, 4), (3, 5), (4, 5)]);
}

#[test]
fn glyph_with_nonpositive_scale_draws_nothing() {
    let mut fb = Framebuffer::new(8, 8, 0);
    draw_glyph(&mut fb, A, 0, 0, 0, 0xFFFFFF);
    draw_glyph(&mut fb, A, 0, 0, -2, 0xFFFFFF);
    assert!(inked(&fb).is_empty());
}

#[test]
fn glyph_clipped_at_edges() {
    let mut fb = Framebuffer::new(4, 4, 0);
    draw_glyph(&mut fb, [0xFF; 8], -2, -2, 1, 0xFFFFFF);
    assert_eq!(inked(&fb).len(), 16);
}

#[test]
fn text_uses_the_font() {
    let mut fb = Framebuffer::new(8, 8, 0);
    draw_text(&mut fb, "A", 0, 0, 1, 0xFFFFFF);
    let mut reference = Framebuffer::new(8, 8, 0);
    draw_glyph(&mut reference, A, 0, 0, 1, 0xFFFFFF);
    assert_eq!(fb.buffer, reference.buffer);
    assert!(!inked(&fb).is_empty());
}

#[test]
fn text_advances_nine_pixels_per_scale() {
    let mut fb = Framebuffer::new(40, 10, 0);
    draw_text(&mut fb, "AA", 1, 0, 1, 0xFFFFFF);
    let mut reference = Framebuffer::new(40, 10, 0);
    draw_glyph(&mut reference, A, 1, 0, 1, 0xFFFFFF);
    draw_glyph(&mut reference, A, 10, 0, 1, 0xFFFFFF);
    assert_eq!(fb.buffer, reference.buffer);
}

#[test]
fn characters_outside_basic_latin_are_blank_but_advance() {
    let mut fb = Framebuffer::new(40, 10, 0);
    draw_text(&mut fb, "éA", 0, 0, 1, 0xFFFFFF);
    let mut reference = Framebuffer::new(40, 10, 0);
    draw_glyph(&mut reference, A, 9, 0, 1, 0xFFFFFF);
    assert_eq!(fb.buffer, reference.buffer);
}

#[test]
fn space_is_blank() {
    let mut fb = Framebuffer::new(16, 16, 0);
    draw_text(&mut fb, " ", 0, 0, 2, 0xFFFFFF);
    assert!(inked(&fb).is_empty());
}

#[test]
fn law_text_concatenates_on_values() {
    let mut once = Framebuffer::new(60, 12, 0);
    draw_text(&mut once, "Hi!", 2, 1, 1, 0x00FF00);
    let mut twice = Framebuffer::new(60, 12, 0);
    draw_text(&mut twice, "H", 2, 1, 1, 0x00FF00);
    draw_text(&mut twice, "i!", 2 + 9, 1, 1, 0x00FF00);
    assert_eq!(once.buffer, twice.buffer);
}

#[test]
fn law_text_stays_in_box_on_values() {
    let mut fb = Framebuffer::new(80, 40, 0);
    draw_text(&mut fb, "#@W", 5, 6, 2, 0xFFFFFF);
    for (x, y) in inked(&fb) {
        assert!(5 <= x && x < 5 + 9 * 2 * 3);
        assert!(6 <= y && y < 6 + 8 * 2);
    }
}
