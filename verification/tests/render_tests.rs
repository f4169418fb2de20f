use mazecaster::framebuffer::Framebuffer;
use mazecaster::map::Maze;
use mazecaster::render::draw_marker;
use mazecaster::render::draw_maze_2d;
use mazecaster::render::stake_rows;
use mazecaster::render::FLOOR_DARK;
use mazecaster::render::FLOOR_LIGHT;
use mazecaster::render::GOAL_COLOR;
use mazecaster::texture::Texture;

fn maze(lines: &[&str]) -> Maze {
    lines.iter().map(|l| l.chars().collect()).collect()
}

fn color(fb: &Framebuffer, x: usize, y: usize) -> u32 {
    let i = (y * fb.width + x) * 3;
    ((fb.buffer[i] as u32) << 16) | ((fb.buffer[i + 1] as u32) << 8) | fb.buffer[i + 2] as u32
}

#[test]
fn marker_square() {
    let mut fb = Framebuffer::new(10, 10, 0);
    draw_marker(&mut fb, 5, 5, 1, 0xFFFFFF);
    for y in 0..10 {
        for x in 0..10 {
            let inside = (4..=6).contains(&x) && (4..=6).contains(&y);
            assert_eq!(color(&fb, x, y) == 0xFFFFFF, inside);
        }
    }
}

#[test]
fn marker_clipped_at_corner() {
    let mut fb = Framebuffer::new(4, 4, 0);
    draw_marker(&mut fb, 0, 0, 5, 0x123456);
    assert!((0..16).all(|q| color(&fb, q % 4, q / 4) == 0x123456));
}

#[test]
fn stake_rows_centred_and_clipped() {
    assert_eq!(stake_rows(600, 100), (250, 250, 350));
    assert_eq!(stake_rows(600, 1000), (-200, 0, 599));
    assert_eq!(stake_rows(600, 0), (300, 300, 300));
    assert_eq!(stake_rows(601, 7), (297, 297, 303));
}

#[test]
fn stake_rows_round_toward_zero() {
    assert_eq!(stake_rows(-3, -5), (1, 1, -4));
}

#[test]
fn floor_checkerboard() {
    // one floor cell, block 8: squares of 2 pixels
    let mut fb = Framebuffer::new(8, 8, 0);
    draw_maze_2d(&mut fb, &maze(&[" "]), 8);
    assert_eq!(color(&fb, 0, 0), FLOOR_LIGHT);
    assert_eq!(color(&fb, 1, 1), FLOOR_LIGHT);
    assert_eq!(color(&fb, 2, 0), FLOOR_DARK);
    assert_eq!(color(&fb, 0, 2), FLOOR_DARK);
    assert_eq!(color(&fb, 2, 2), FLOOR_LIGHT);
    assert_eq!(color(&fb, 7, 5), FLOOR_DARK);
}

#[test]
fn walls_are_left_alone() {
    let mut fb = Framebuffer::new(8, 4, 0x0000FF);
    draw_maze_2d(&mut fb, &maze(&["+ "]), 4);
    for y in 0..4 {
        for x in 0..4 {
            assert_eq!(color(&fb, x, y), 0x0000FF);
        }
        for x in 4..8 {
            assert_ne!(color(&fb, x, y), 0x0000FF);
        }
    }
}

#[test]
fn goal_marker_over_its_cell() {
    let mut fb = Framebuffer::new(20, 20, 0);
    draw_maze_2d(&mut fb, &maze(&["g"]), 20);
    assert_eq!(color(&fb, 10, 10), GOAL_COLOR);
    assert_eq!(color(&fb, 5, 5), GOAL_COLOR);
    assert_eq!(color(&fb, 15, 15), GOAL_COLOR);
    assert_ne!(color(&fb, 4, 4), GOAL_COLOR);
    assert_ne!(color(&fb, 16, 10), GOAL_COLOR);
}

#[test]
fn later_floor_covers_earlier_marker() {
    // blocks of 4: the goal's marker reaches into the next cell, whose
    // floor is drawn afterwards and covers it; over the wall it stays.
    let mut fb = Framebuffer::new(12, 4, 0);
    draw_maze_2d(&mut fb, &maze(&["+g "]), 4);
    assert_eq!(color(&fb, 1, 1), GOAL_COLOR);
    assert_eq!(color(&fb, 5, 1), GOAL_COLOR);
    assert_ne!(color(&fb, 8, 1), GOAL_COLOR);
}

#[test]
fn nonpositive_block_draws_markers_only() {
    let mut fb = Framebuffer::new(8, 8, 0);
    draw_maze_2d(&mut fb, &maze(&["g "]), 0);
    assert_eq!(color(&fb, 0, 0), GOAL_COLOR);
    assert_eq!(color(&fb, 5, 5), GOAL_COLOR);
    assert_eq!(color(&fb, 6, 6), 0);
}

#[test]
fn texture_color_at() {
    let t = Texture { width: 2, height: 1, buffer: vec![1, 2, 3, 0xAA, 0xBB, 0xCC] };
    assert_eq!(t.color_at(0, 0), 0x010203);
    assert_eq!(t.color_at(1, 0), 0xAABBCC);
}

#[test]
fn maze_fits_small_and_huge_blocks() {
    let m = maze(&["+g+", "| |"]);
    assert!(mazecaster::render::maze_fits(&m, 80));
    assert!(mazecaster::render::maze_fits(&m, 0));
    assert!(mazecaster::render::maze_fits(&m, i32::MAX / 2));
    assert!(!mazecaster::render::maze_fits(&m, 1_100_000_000));
    // only wall cells: nothing is computed
    assert!(mazecaster::render::maze_fits(&maze(&["+-+-+"]), i32::MAX));
    // a goal cell at column 0 with a negative block reaches below i32::MIN
    assert!(!mazecaster::render::maze_fits(&maze(&[" g"]), i32::MIN));
}

#[test]
fn law_redraw_changes_nothing_on_values() {
    let m = maze(&["+g+", "|  ", "+-+"]);
    let mut once = Framebuffer::new(30, 30, 0x050505);
    draw_maze_2d(&mut once, &m, 10);
    let mut twice = Framebuffer::new(30, 30, 0x050505);
    draw_maze_2d(&mut twice, &m, 10);
    draw_maze_2d(&mut twice, &m, 10);
    assert_eq!(once.buffer, twice.buffer);
}
