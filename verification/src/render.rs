//! Drawing the maze: the top-down view of its cells and markers, and the
//! rows of a wall column in the first-person view.

use vstd::prelude::*;
use crate::framebuffer::Framebuffer;
use crate::framebuffer::painted;
use crate::framebuffer::block;
use crate::framebuffer::recolored;
use crate::framebuffer::at;
use crate::framebuffer::lemma_painted_is_recolored;
use crate::framebuffer::lemma_recolor_twice;
use crate::framebuffer::lemma_recolor_same;
use crate::map::Maze;
use crate::map::grid;
use crate::map::in_grid;
use crate::map::wall;
use crate::map::after;
use crate::map::is_wall;
use vstd::arithmetic::div_mod::lemma_fundamental_div_mod;
use vstd::arithmetic::div_mod::lemma_fundamental_div_mod_converse;

verus! {

/// Division by two rounding toward zero, as on `i32`.
pub open spec fn half_toward_zero(v: int) -> int {
    if v >= 0 {
        v / 2
    } else {
        -((-v) / 2)
    }
}

/// Fills the square of side `2 * radius + 1` centred on
/// `(center_x, center_y)` with `color`.
pub fn draw_marker(
    framebuffer: &mut Framebuffer,
    center_x: i32,
    center_y: i32,
    radius: i32,
    color: u32,
)
    requires
        old(framebuffer).well_formed(),
    ensures
        final(framebuffer).width == old(framebuffer).width,
        final(framebuffer).height == old(framebuffer).height,
        final(framebuffer).background_color == old(framebuffer).background_color,
        final(framebuffer).buffer@ == painted(
            old(framebuffer).buffer@,
            old(framebuffer).width as int,
            old(framebuffer).height as int,
            color,
            block(
                center_x - radius,
                center_y - radius,
                2 * radius + 1,
                2 * radius + 1,
            ),
        ),
{
    let side = 2 * radius as i64 + 1;
    framebuffer.fill_block(
        center_x as i64 - radius as i64,
        center_y as i64 - radius as i64,
        side,
        side,
        color,
    );
}

/// The rows of a wall column `wall_height` pixels tall centred on the
/// horizon of a screen `screen_height` pixels tall: the unclipped top row,
/// then the first and last rows that lie on the screen.
pub fn stake_rows(screen_height: i32, wall_height: i32) -> (rows: (i32, i32, i32))
    requires
        screen_height > i32::MIN,
    ensures
        ({
            let horizon = half_toward_zero(screen_height as int);
            let wall_top = horizon - half_toward_zero(wall_height as int);
            let wall_bottom = horizon + half_toward_zero(wall_height as int);
            &&& rows.0 == wall_top
            &&& rows.1 == if wall_top >= 0 { wall_top } else { 0 }
            &&& rows.2 == if wall_bottom <= screen_height - 1 {
                wall_bottom
            } else {
                screen_height - 1
            }
        }),
{
    let horizon = screen_height / 2;
    let half = wall_height / 2;
    let wall_top = horizon - half;
    let wall_bottom = horizon + half;
    let top = if wall_top >= 0 { wall_top } else { 0 };
    let bottom = if wall_bottom <= screen_height - 1 { wall_bottom } else { screen_height - 1 };
    (wall_top, top, bottom)
}


/// The lighter floor colour of the top-down view.
pub const FLOOR_LIGHT: u32 = 0xE8E8E8u32;

/// The darker floor colour of the top-down view.
pub const FLOOR_DARK: u32 = 0x111111u32;

/// The colour of the goal marker.
pub const GOAL_COLOR: u32 = 0x4FAE4Fu32;

/// Side of a checkerboard square on the floor: a quarter of a block, at
/// least one pixel.
pub open spec fn checker_size(block_size: int) -> int {
    if block_size / 4 >= 1 {
        block_size / 4
    } else {
        1
    }
}

/// The floor colour at screen pixel `(px, py)`: checkerboard squares of
/// `checker_size` pixels counted from the screen's corner, light where the
/// square's column and row numbers add up to an even number.
pub open spec fn checker_color(block_size: int, px: int, py: int) -> u32 {
    if (px / checker_size(block_size) + py / checker_size(block_size)) % 2 == 0 {
        FLOOR_LIGHT
    } else {
        FLOOR_DARK
    }
}

/// A cell of the maze that is not a wall.
pub open spec fn floor_cell(rows: Seq<Seq<char>>, x: int, y: int) -> bool {
    in_grid(rows, x, y) && !wall(rows[y][x])
}

/// A cell of the maze holding the goal.
pub open spec fn goal_cell(rows: Seq<Seq<char>>, x: int, y: int) -> bool {
    in_grid(rows, x, y) && rows[y][x] == 'g'
}

/// Screen coordinate of the centre of the block of cell column or row `c`.
pub open spec fn block_center(block_size: int, c: int) -> int {
    c * block_size + half_toward_zero(block_size)
}

/// Pixel `(px, py)` lies in the 11 x 11 marker of the goal cell `(gx, gy)`.
pub open spec fn in_goal_marker(block_size: int, gx: int, gy: int, px: int, py: int) -> bool {
    block(block_center(block_size, gx) - 5, block_center(block_size, gy) - 5, 11, 11)(px, py)
}

/// Cell `(cx, cy)` comes before cell `(tx, ty)` in row-major order.
pub open spec fn cell_before(ty: int, tx: int, cx: int, cy: int) -> bool {
    cy < ty || (cy == ty && cx < tx)
}

/// Pixel `(px, py)` lies in the block of a floor cell drawn before cell
/// `(tx, ty)`.
pub open spec fn floor_pixel_before(
    rows: Seq<Seq<char>>,
    block_size: int,
    ty: int,
    tx: int,
    px: int,
    py: int,
) -> bool {
    &&& block_size > 0
    &&& px >= 0
    &&& py >= 0
    &&& floor_cell(rows, px / block_size, py / block_size)
    &&& cell_before(ty, tx, px / block_size, py / block_size)
}

/// The marker of goal cell `(gx, gy)`, drawn before cell `(tx, ty)`, shows at
/// pixel `(px, py)`: no floor block drawn after it covers the pixel.
pub open spec fn marker_shows(
    rows: Seq<Seq<char>>,
    block_size: int,
    ty: int,
    tx: int,
    gx: int,
    gy: int,
    px: int,
    py: int,
) -> bool {
    &&& goal_cell(rows, gx, gy)
    &&& cell_before(ty, tx, gx, gy)
    &&& in_goal_marker(block_size, gx, gy, px, py)
    &&& !(floor_pixel_before(rows, block_size, ty, tx, px, py) && after(
        px / block_size,
        py / block_size,
        gx,
        gy,
    ))
}

/// The colour the top-down view gives pixel `(px, py)` once the cells
/// before `(tx, ty)` are drawn, if any.
pub open spec fn maze_colors_before(
    rows: Seq<Seq<char>>,
    block_size: int,
    ty: int,
    tx: int,
) -> spec_fn(int, int) -> Option<u32> {
    |px: int, py: int|
        if exists|gx: int, gy: int| #[trigger]
            marker_shows(rows, block_size, ty, tx, gx, gy, px, py) {
            Some(GOAL_COLOR)
        } else if floor_pixel_before(rows, block_size, ty, tx, px, py) {
            Some(checker_color(block_size, px, py))
        } else {
            None
        }
}

/// The colour the whole top-down view gives pixel `(px, py)`, if any: the
/// goal colour inside the marker of a goal cell unless the block of a floor
/// cell that comes later in row-major order covers the pixel; otherwise the
/// checkerboard inside the block of a floor cell; otherwise none.
pub open spec fn maze_colors(rows: Seq<Seq<char>>, block_size: int) -> spec_fn(
    int,
    int,
) -> Option<u32> {
    maze_colors_before(rows, block_size, rows.len() as int, 0)
}

/// The checkerboard colours of the block `[x0, x0 + block_size)` by
/// `[y0, y0 + block_size)`.
pub open spec fn floor_block_colors(x0: int, y0: int, block_size: int) -> spec_fn(
    int,
    int,
) -> Option<u32> {
    |px: int, py: int|
        if x0 <= px < x0 + block_size && y0 <= py < y0 + block_size {
            Some(checker_color(block_size, px, py))
        } else {
            None
        }
}

/// Draws the checkerboard floor of the block with top left corner
/// `(x0, y0)`, pixel by pixel, row by row.
fn draw_floor_block(framebuffer: &mut Framebuffer, x0: i32, y0: i32, block_size: i32, size: i32)
    requires
        old(framebuffer).well_formed(),
        block_size > 0,
        x0 >= 0,
        y0 >= 0,
        x0 + block_size - 1 <= i32::MAX,
        y0 + block_size - 1 <= i32::MAX,
        size == checker_size(block_size as int),
        (x0 + block_size - 1) / checker_size(block_size as int) + (y0 + block_size - 1)
            / checker_size(block_size as int) <= i32::MAX,
    ensures
        final(framebuffer).width == old(framebuffer).width,
        final(framebuffer).height == old(framebuffer).height,
        final(framebuffer).background_color == old(framebuffer).background_color,
        final(framebuffer).buffer@ == recolored(
            old(framebuffer).buffer@,
            old(framebuffer).width as int,
            old(framebuffer).height as int,
            floor_block_colors(x0 as int, y0 as int, block_size as int),
        ),
{
    let ghost w = framebuffer.width as int;
    let ghost h = framebuffer.height as int;
    let ghost before = framebuffer.buffer@;
    let ghost bs = block_size as int;
    proof {
        lemma_recolor_same(
            before,
            w,
            h,
            |qx: int, qy: int| None,
            |qx: int, qy: int|
                if x0 <= qx < x0 + bs && y0 <= qy < y0 + 0 {
                    Some(checker_color(bs, qx, qy))
                } else {
                    None
                },
        );
        assert(before =~= recolored(before, w, h, |qx: int, qy: int| None));
    }
    let mut py: i32 = 0;
    while py < block_size
        invariant
            0 <= py <= block_size,
            bs == block_size,
            0 <= x0,
            0 <= y0,
            x0 + bs - 1 <= i32::MAX,
            y0 + bs - 1 <= i32::MAX,
            size == checker_size(bs),
            (x0 + bs - 1) / checker_size(bs) + (y0 + bs - 1) / checker_size(bs) <= i32::MAX,
            framebuffer.width == w,
            framebuffer.height == h,
            framebuffer.background_color == old(framebuffer).background_color,
            framebuffer.well_formed(),
            framebuffer.buffer@ == recolored(
                before,
                w,
                h,
                |qx: int, qy: int|
                    if x0 <= qx < x0 + bs && y0 <= qy < y0 + py {
                        Some(checker_color(bs, qx, qy))
                    } else {
                        None
                    },
            ),
        decreases block_size - py,
    {
        let mut px: i32 = 0;
        while px < block_size
            invariant
                0 <= py < block_size,
                0 <= px <= block_size,
                bs == block_size,
                0 <= x0,
                0 <= y0,
                x0 + bs - 1 <= i32::MAX,
                y0 + bs - 1 <= i32::MAX,
                size == checker_size(bs),
                (x0 + bs - 1) / checker_size(bs) + (y0 + bs - 1) / checker_size(bs) <= i32::MAX,
                framebuffer.width == w,
                framebuffer.height == h,
                framebuffer.background_color == old(framebuffer).background_color,
                framebuffer.well_formed(),
                framebuffer.buffer@ == recolored(
                    before,
                    w,
                    h,
                    |qx: int, qy: int|
                        if x0 <= qx < x0 + bs && (y0 <= qy < y0 + py || (qy == y0 + py && x0 <= qx
                            < x0 + px)) {
                            Some(checker_color(bs, qx, qy))
                        } else {
                            None
                        },
                ),
            decreases block_size - px,
        {
            let screen_x = x0 + px;
            let screen_y = y0 + py;
            proof {
                assert((screen_x as int) / (size as int) <= (x0 + bs - 1) / (size as int)) by (nonlinear_arith)
                    requires
                        screen_x <= x0 + bs - 1,
                        0 <= screen_x,
                        size >= 1,
                ;
                assert((screen_y as int) / (size as int) <= (y0 + bs - 1) / (size as int)) by (nonlinear_arith)
                    requires
                        screen_y <= y0 + bs - 1,
                        0 <= screen_y,
                        size >= 1,
                ;
            }
            let checker_x = screen_x / size;
            let checker_y = screen_y / size;
            let color = if (checker_x + checker_y) % 2 == 0 {
                FLOOR_LIGHT
            } else {
                FLOOR_DARK
            };
            let ghost prev = |qx: int, qy: int|
                if x0 <= qx < x0 + bs && (y0 <= qy < y0 + py || (qy == y0 + py && x0 <= qx < x0
                    + px)) {
                    Some(checker_color(bs, qx, qy))
                } else {
                    None
                };
            let ghost next = |qx: int, qy: int|
                if x0 <= qx < x0 + bs && (y0 <= qy < y0 + py || (qy == y0 + py && x0 <= qx < x0
                    + px + 1)) {
                    Some(checker_color(bs, qx, qy))
                } else {
                    None
                };
            framebuffer.set_pixel(screen_x, screen_y, color);
            proof {
                assert(color == checker_color(bs, screen_x as int, screen_y as int));
                let dot = |qx: int, qy: int|
                    if at(screen_x as int, screen_y as int)(qx, qy) {
                        Some(color)
                    } else {
                        None
                    };
                lemma_painted_is_recolored(
                    recolored(before, w, h, prev),
                    w,
                    h,
                    color,
                    at(screen_x as int, screen_y as int),
                );
                lemma_recolor_twice(before, w, h, prev, dot);
                lemma_recolor_same(
                    before,
                    w,
                    h,
                    |qx: int, qy: int|
                        if dot(qx, qy) is Some {
                            dot(qx, qy)
                        } else {
                            prev(qx, qy)
                        },
                    next,
                );
            }
            px = px + 1;
        }
        proof {
            lemma_recolor_same(
                before,
                w,
                h,
                |qx: int, qy: int|
                    if x0 <= qx < x0 + bs && (y0 <= qy < y0 + py || (qy == y0 + py && x0 <= qx < x0
                        + px)) {
                        Some(checker_color(bs, qx, qy))
                    } else {
                        None
                    },
                |qx: int, qy: int|
                    if x0 <= qx < x0 + bs && y0 <= qy < y0 + py + 1 {
                        Some(checker_color(bs, qx, qy))
                    } else {
                        None
                    },
            );
        }
        py = py + 1;
    }
    proof {
        lemma_recolor_same(
            before,
            w,
            h,
            |qx: int, qy: int|
                if x0 <= qx < x0 + bs && y0 <= qy < y0 + py {
                    Some(checker_color(bs, qx, qy))
                } else {
                    None
                },
            floor_block_colors(x0 as int, y0 as int, bs),
        );
    }
}


/// Pixel `(px, py)`, with `px, py >= 0`, lies in the block of cell `(cx, cy)`
/// exactly when the cell is the pixel's block.
proof fn lemma_in_block(block_size: int, cx: int, cy: int, px: int, py: int)
    requires
        block_size > 0,
        px >= 0,
        py >= 0,
    ensures
        (cx * block_size <= px < cx * block_size + block_size && cy * block_size <= py < cy
            * block_size + block_size) <==> (px / block_size == cx && py / block_size == cy),
{
    lemma_fundamental_div_mod(px, block_size);
    lemma_fundamental_div_mod(py, block_size);
    if cx * block_size <= px < cx * block_size + block_size {
        lemma_fundamental_div_mod_converse(px, block_size, cx, px - cx * block_size);
    }
    if cy * block_size <= py < cy * block_size + block_size {
        lemma_fundamental_div_mod_converse(py, block_size, cy, py - cy * block_size);
    }
    if px / block_size == cx {
        assert(cx * block_size == block_size * (px / block_size)) by (nonlinear_arith)
            requires
                px / block_size == cx,
        ;
    }
    if py / block_size == cy {
        assert(cy * block_size == block_size * (py / block_size)) by (nonlinear_arith)
            requires
                py / block_size == cy,
        ;
    }
}

/// Drawing cell `(tx, ty)`, its floor block then its goal marker, over the
/// colours of the cells before it gives the colours of the cells up to it.
proof fn lemma_cell_step(rows: Seq<Seq<char>>, bs: int, ty: int, tx: int, px: int, py: int)
    requires
        in_grid(rows, tx, ty),
        px >= 0,
        py >= 0,
    ensures
        maze_colors_before(rows, bs, ty, tx + 1)(px, py) == (if goal_cell(rows, tx, ty)
            && in_goal_marker(bs, tx, ty, px, py) {
            Some(GOAL_COLOR)
        } else if floor_cell(rows, tx, ty) && bs > 0 && floor_block_colors(
            tx * bs,
            ty * bs,
            bs,
        )(px, py) is Some {
            floor_block_colors(tx * bs, ty * bs, bs)(px, py)
        } else {
            maze_colors_before(rows, bs, ty, tx)(px, py)
        }),
{
    let here = floor_cell(rows, tx, ty) && bs > 0 && floor_block_colors(tx * bs, ty * bs, bs)(
        px,
        py,
    ) is Some;
    if bs > 0 {
        lemma_in_block(bs, tx, ty, px, py);
    }
    assert(floor_pixel_before(rows, bs, ty, tx + 1, px, py) == (floor_pixel_before(
        rows,
        bs,
        ty,
        tx,
        px,
        py,
    ) || here));
    assert forall|gx: int, gy: int| cell_before(ty, tx, gx, gy) implies marker_shows(
        rows,
        bs,
        ty,
        tx + 1,
        gx,
        gy,
        px,
        py,
    ) == (marker_shows(rows, bs, ty, tx, gx, gy, px, py) && !here) by {
        if here {
            assert(after(px / bs, py / bs, gx, gy));
        }
    }
    assert(marker_shows(rows, bs, ty, tx + 1, tx, ty, px, py) == (goal_cell(rows, tx, ty)
        && in_goal_marker(bs, tx, ty, px, py)));
    let shows_new = exists|gx: int, gy: int| #[trigger]
        marker_shows(rows, bs, ty, tx + 1, gx, gy, px, py);
    let shows_old = exists|gx: int, gy: int| #[trigger]
        marker_shows(rows, bs, ty, tx, gx, gy, px, py);
    if shows_new {
        let (gx, gy) = choose|gx: int, gy: int| #[trigger]
            marker_shows(rows, bs, ty, tx + 1, gx, gy, px, py);
        if !(gx == tx && gy == ty) {
            assert(cell_before(ty, tx, gx, gy));
            assert(marker_shows(rows, bs, ty, tx, gx, gy, px, py));
        }
    }
    if shows_old && !here {
        let (gx, gy) = choose|gx: int, gy: int| #[trigger]
            marker_shows(rows, bs, ty, tx, gx, gy, px, py);
        assert(marker_shows(rows, bs, ty, tx + 1, gx, gy, px, py));
    }
    if goal_cell(rows, tx, ty) && in_goal_marker(bs, tx, ty, px, py) {
        assert(marker_shows(rows, bs, ty, tx + 1, tx, ty, px, py));
    }
}

/// Finishing a row is starting the next.
proof fn lemma_row_step(rows: Seq<Seq<char>>, bs: int, ty: int, px: int, py: int)
    requires
        0 <= ty < rows.len(),
    ensures
        maze_colors_before(rows, bs, ty, rows[ty].len() as int)(px, py) == maze_colors_before(
            rows,
            bs,
            ty + 1,
            0,
        )(px, py),
{
    let len = rows[ty].len() as int;
    assert(floor_pixel_before(rows, bs, ty, len, px, py) == floor_pixel_before(
        rows,
        bs,
        ty + 1,
        0,
        px,
        py,
    ));
    assert forall|gx: int, gy: int| #![all_triggers]
        marker_shows(rows, bs, ty, len, gx, gy, px, py) == marker_shows(
            rows,
            bs,
            ty + 1,
            0,
            gx,
            gy,
            px,
            py,
        ) by {}
    let shows_a = exists|gx: int, gy: int| #[trigger]
        marker_shows(rows, bs, ty, len, gx, gy, px, py);
    let shows_b = exists|gx: int, gy: int| #[trigger]
        marker_shows(rows, bs, ty + 1, 0, gx, gy, px, py);
    if shows_a {
        let (gx, gy) = choose|gx: int, gy: int| #[trigger]
            marker_shows(rows, bs, ty, len, gx, gy, px, py);
        assert(marker_shows(rows, bs, ty + 1, 0, gx, gy, px, py));
    }
    if shows_b {
        let (gx, gy) = choose|gx: int, gy: int| #[trigger]
            marker_shows(rows, bs, ty + 1, 0, gx, gy, px, py);
        assert(marker_shows(rows, bs, ty, len, gx, gy, px, py));
    }
}


/// Every coordinate the top-down view computes fits in an `i32`: the
/// pixels of the blocks of floor cells and their checkerboard square
/// numbers, and the pixels of the markers of goal cells.
pub open spec fn maze_fits_i32(rows: Seq<Seq<char>>, block_size: int) -> bool {
    forall|x: int, y: int| #[trigger] cell_fits_i32(rows, block_size, x, y)
}

/// The coordinates the top-down view computes for cell `(x, y)` fit in an
/// `i32`.
pub open spec fn cell_fits_i32(rows: Seq<Seq<char>>, block_size: int, x: int, y: int) -> bool {
    &&& floor_cell(rows, x, y) && block_size > 0 ==> {
        &&& x * block_size + block_size - 1 <= i32::MAX
        &&& y * block_size + block_size - 1 <= i32::MAX
        &&& (x * block_size + block_size - 1) / checker_size(block_size) + (y * block_size
            + block_size - 1) / checker_size(block_size) <= i32::MAX
    }
    &&& goal_cell(rows, x, y) ==> {
        &&& i32::MIN <= block_center(block_size, x) - 5
        &&& block_center(block_size, x) + 5 <= i32::MAX
        &&& i32::MIN <= block_center(block_size, y) - 5
        &&& block_center(block_size, y) + 5 <= i32::MAX
    }
}

/// Whether every coordinate the top-down view of `maze` computes with this
/// block size fits in an `i32`, as `draw_maze_2d` needs.
pub fn maze_fits(maze: &Maze, block_size: i32) -> (fits: bool)
    ensures
        fits == maze_fits_i32(grid(maze), block_size as int),
{
    let ghost rows = grid(maze);
    let ghost bs_int = block_size as int;
    let bs = block_size as i128;
    let size: i128 = if block_size / 4 >= 1 {
        (block_size / 4) as i128
    } else {
        1
    };
    let half = (block_size / 2) as i128;
    let max = i32::MAX as i128;
    let min = i32::MIN as i128;
    let mut y: usize = 0;
    while y < maze.len()
        invariant
            0 <= y <= rows.len(),
            rows == grid(maze),
            rows.len() == maze@.len(),
            bs == bs_int,
            bs_int == block_size,
            size == checker_size(bs_int),
            half == half_toward_zero(bs_int),
            max == i32::MAX,
            min == i32::MIN,
            forall|x1: int, y1: int| 0 <= y1 < y ==> #[trigger] cell_fits_i32(rows, bs_int, x1, y1),
        decreases rows.len() - y,
    {
        let row = &maze[y];
        assert(row@ == rows[y as int]);
        let mut x: usize = 0;
        while x < row.len()
            invariant
                0 <= y < rows.len(),
                0 <= x <= row@.len(),
                row@ == rows[y as int],
                rows == grid(maze),
                bs == bs_int,
                bs_int == block_size,
                size == checker_size(bs_int),
                half == half_toward_zero(bs_int),
                max == i32::MAX,
                min == i32::MIN,
                forall|x1: int, y1: int|
                    (0 <= y1 < y || (y1 == y && x1 < x)) ==> #[trigger] cell_fits_i32(
                        rows,
                        bs_int,
                        x1,
                        y1,
                    ),
            decreases row@.len() - x,
        {
            let cell = row[x];
            let xi = x as i128;
            let yi = y as i128;
            proof {
                assert(-0x1_0000_0000_0000_0000 * 0x8000_0000 <= xi * bs <= 0x1_0000_0000_0000_0000
                    * 0x8000_0000) by (nonlinear_arith)
                    requires
                        0 <= xi <= 0xffff_ffff_ffff_ffff,
                        -0x8000_0000 <= bs <= 0x7fff_ffff,
                ;
                assert(-0x1_0000_0000_0000_0000 * 0x8000_0000 <= yi * bs <= 0x1_0000_0000_0000_0000
                    * 0x8000_0000) by (nonlinear_arith)
                    requires
                        0 <= yi <= 0xffff_ffff_ffff_ffff,
                        -0x8000_0000 <= bs <= 0x7fff_ffff,
                ;
            }
            if !is_wall(cell) && block_size > 0 {
                let right = xi * bs + bs - 1;
                let bottom = yi * bs + bs - 1;
                if right > max || bottom > max {
                    assert(!cell_fits_i32(rows, bs_int, x as int, y as int));
                    assert(!maze_fits_i32(rows, bs_int));
                    return false;
                }
                proof {
                    assert(0 <= right && 0 <= bottom) by (nonlinear_arith)
                        requires
                            right == xi * bs + bs - 1,
                            bottom == yi * bs + bs - 1,
                            xi >= 0,
                            yi >= 0,
                            bs >= 1,
                    ;
                }
                if right / size + bottom / size > max {
                    assert(!cell_fits_i32(rows, bs_int, x as int, y as int));
                    assert(!maze_fits_i32(rows, bs_int));
                    return false;
                }
            }
            if cell == 'g' {
                let cx = xi * bs + half;
                let cy = yi * bs + half;
                if cx - 5 < min || cx + 5 > max || cy - 5 < min || cy + 5 > max {
                    assert(!cell_fits_i32(rows, bs_int, x as int, y as int));
                    assert(!maze_fits_i32(rows, bs_int));
                    return false;
                }
            }
            assert(cell_fits_i32(rows, bs_int, x as int, y as int));
            x = x + 1;
        }
        y = y + 1;
    }
    true
}

/// `c as i32` times `block_size` is `c * block_size` when the centre of the
/// block of column or row `c` fits in an `i32`.
proof fn lemma_center_fits(block_size: i32, c: int)
    requires
        0 <= c,
        i32::MIN <= block_center(block_size as int, c) - 5,
        block_center(block_size as int, c) + 5 <= i32::MAX,
    ensures
        block_size != 0 ==> c <= i32::MAX,
        i32::MIN <= c * block_size <= i32::MAX,
{
    let bs = block_size as int;
    let half = half_toward_zero(bs);
    assert(bs > 0 ==> 0 <= half) by {}
    assert(bs < 0 ==> half <= 0) by {}
    if bs > 0 {
        assert(c <= c * bs) by (nonlinear_arith)
            requires
                0 <= c,
                bs >= 1,
        ;
    } else if bs < 0 {
        assert(c * bs <= -c) by (nonlinear_arith)
            requires
                0 <= c,
                bs <= -1,
        ;
    }
}

/// Draws the top-down view of the maze, cell by cell in row-major order,
/// each cell a `block_size * block_size` block: a checkerboard floor for
/// every cell that is not a wall, then an 11 x 11 marker in the goal colour
/// centred on every goal cell.
pub fn draw_maze_2d(framebuffer: &mut Framebuffer, maze: &Maze, block_size: i32)
    requires
        old(framebuffer).well_formed(),
        maze_fits_i32(grid(maze), block_size as int),
    ensures
        final(framebuffer).width == old(framebuffer).width,
        final(framebuffer).height == old(framebuffer).height,
        final(framebuffer).background_color == old(framebuffer).background_color,
        final(framebuffer).buffer@ == recolored(
            old(framebuffer).buffer@,
            old(framebuffer).width as int,
            old(framebuffer).height as int,
            maze_colors(grid(maze), block_size as int),
        ),
{
    let ghost w = framebuffer.width as int;
    let ghost h = framebuffer.height as int;
    let ghost before = framebuffer.buffer@;
    let ghost rows = grid(maze);
    let ghost bs = block_size as int;
    proof {
        lemma_recolor_same(
            before,
            w,
            h,
            |px: int, py: int| None,
            maze_colors_before(rows, bs, 0, 0),
        );
        assert(before =~= recolored(before, w, h, |px: int, py: int| None));
    }
    let size = if block_size / 4 >= 1 {
        block_size / 4
    } else {
        1
    };
    let mut y: usize = 0;
    while y < maze.len()
        invariant
            0 <= y <= rows.len(),
            rows == grid(maze),
            rows.len() == maze@.len(),
            bs == block_size,
            size == checker_size(bs),
            maze_fits_i32(rows, bs),
            framebuffer.width == w,
            framebuffer.height == h,
            framebuffer.background_color == old(framebuffer).background_color,
            framebuffer.well_formed(),
            framebuffer.buffer@ == recolored(
                before,
                w,
                h,
                maze_colors_before(rows, bs, y as int, 0),
            ),
        decreases rows.len() - y,
    {
        let row = &maze[y];
        assert(row@ == rows[y as int]);
        let mut x: usize = 0;
        while x < row.len()
            invariant
                0 <= y < rows.len(),
                0 <= x <= row@.len(),
                row@ == rows[y as int],
                bs == block_size,
                size == checker_size(bs),
                maze_fits_i32(rows, bs),
                framebuffer.width == w,
                framebuffer.height == h,
                framebuffer.background_color == old(framebuffer).background_color,
                framebuffer.well_formed(),
                framebuffer.buffer@ == recolored(
                    before,
                    w,
                    h,
                    maze_colors_before(rows, bs, y as int, x as int),
                ),
            decreases row@.len() - x,
        {
            let ghost tx = x as int;
            let ghost ty = y as int;
            let ghost start = maze_colors_before(rows, bs, ty, tx);
            let cell = row[x];
            let ghost floor_here = floor_cell(rows, tx, ty) && bs > 0;
            let ghost after_floor = if floor_here {
                |px: int, py: int|
                    if floor_block_colors(tx * bs, ty * bs, bs)(px, py) is Some {
                        floor_block_colors(tx * bs, ty * bs, bs)(px, py)
                    } else {
                        start(px, py)
                    }
            } else {
                start
            };
            if !is_wall(cell) && block_size > 0 {
                proof {
                    assert(floor_cell(rows, tx, ty));
                    assert(cell_fits_i32(rows, bs, tx, ty));
                    assert(tx <= tx * bs && ty <= ty * bs) by (nonlinear_arith)
                        requires
                            tx >= 0,
                            ty >= 0,
                            bs >= 1,
                    ;
                }
                let x0 = x as i32 * block_size;
                let y0 = y as i32 * block_size;
                draw_floor_block(framebuffer, x0, y0, block_size, size);
                proof {
                    lemma_recolor_twice(
                        before,
                        w,
                        h,
                        start,
                        floor_block_colors(tx * bs, ty * bs, bs),
                    );
                }
            }
            let ghost after_marker = if goal_cell(rows, tx, ty) {
                |px: int, py: int|
                    if in_goal_marker(bs, tx, ty, px, py) {
                        Some(GOAL_COLOR)
                    } else {
                        after_floor(px, py)
                    }
            } else {
                after_floor
            };
            if cell == 'g' {
                proof {
                    assert(goal_cell(rows, tx, ty));
                    assert(cell_fits_i32(rows, bs, tx, ty));
                    lemma_center_fits(block_size, tx);
                    lemma_center_fits(block_size, ty);
                }
                let center_x = x as i32 * block_size + block_size / 2;
                let center_y = y as i32 * block_size + block_size / 2;
                draw_marker(framebuffer, center_x, center_y, 5, GOAL_COLOR);
                proof {
                    assert(center_x == block_center(bs, tx));
                    assert(center_y == block_center(bs, ty));
                    let marker = block(center_x - 5, center_y - 5, 11, 11);
                    lemma_painted_is_recolored(
                        recolored(before, w, h, after_floor),
                        w,
                        h,
                        GOAL_COLOR,
                        marker,
                    );
                    lemma_recolor_twice(
                        before,
                        w,
                        h,
                        after_floor,
                        |px: int, py: int|
                            if marker(px, py) {
                                Some(GOAL_COLOR)
                            } else {
                                None
                            },
                    );
                    lemma_recolor_same(
                        before,
                        w,
                        h,
                        |px: int, py: int|
                            if (if marker(px, py) {
                                Some(GOAL_COLOR)
                            } else {
                                None
                            }) is Some {
                                if marker(px, py) {
                                    Some(GOAL_COLOR)
                                } else {
                                    None
                                }
                            } else {
                                after_floor(px, py)
                            },
                        after_marker,
                    );
                }
            }
            proof {
                assert forall|px: int, py: int| 0 <= px < w && 0 <= py < h implies #[trigger]
                    after_marker(px, py) == maze_colors_before(rows, bs, ty, tx + 1)(px, py) by {
                    lemma_cell_step(rows, bs, ty, tx, px, py);
                }
                lemma_recolor_same(
                    before,
                    w,
                    h,
                    after_marker,
                    maze_colors_before(rows, bs, ty, tx + 1),
                );
            }
            x = x + 1;
        }
        proof {
            assert forall|px: int, py: int| 0 <= px < w && 0 <= py < h implies #[trigger]
                maze_colors_before(rows, bs, y as int, row@.len() as int)(px, py)
                == maze_colors_before(rows, bs, y + 1, 0)(px, py) by {
                lemma_row_step(rows, bs, y as int, px, py);
            }
            lemma_recolor_same(
                before,
                w,
                h,
                maze_colors_before(rows, bs, y as int, row@.len() as int),
                maze_colors_before(rows, bs, y + 1, 0),
            );
        }
        y = y + 1;
    }
}


/// Pixel `(px, py)` lies within 5 pixels, across and down, of the centre
/// of the block of cell `(x, y)`.
pub open spec fn near_center(block_size: int, x: int, y: int, px: int, py: int) -> bool {
    let cx = x * block_size + half_toward_zero(block_size);
    let cy = y * block_size + half_toward_zero(block_size);
    cx - 5 <= px <= cx + 5 && cy - 5 <= py <= cy + 5
}

/// In the top-down view a pixel takes the goal colour only near the centre
/// of a cell holding `g`.
pub proof fn law_goal_color_only_at_g(rows: Seq<Seq<char>>, block_size: int, px: int, py: int)
    requires
        maze_colors(rows, block_size)(px, py) == Some(0x4FAE4Fu32),
    ensures
        exists|gx: int, gy: int|
            0 <= gy < rows.len() && 0 <= gx < rows[gy].len() && #[trigger] rows[gy][gx] == 'g'
                && near_center(block_size, gx, gy, px, py),
{
    let n = rows.len() as int;
    if exists|gx: int, gy: int| #[trigger] marker_shows(rows, block_size, n, 0, gx, gy, px, py) {
        let (gx, gy) = choose|gx: int, gy: int| #[trigger]
            marker_shows(rows, block_size, n, 0, gx, gy, px, py);
        assert(rows[gy][gx] == 'g' && near_center(block_size, gx, gy, px, py));
    } else {
        assert(checker_color(block_size, px, py) != 0x4FAE4Fu32);
    }
}

/// In the top-down view a pixel of the block of a cell that is not a wall
/// (`+`, `-` or `|`), away from every cell holding `g`, takes the
/// checkerboard colour: squares of a quarter block (at least one pixel)
/// counted from the screen's corner, `0xE8E8E8` where the square's column
/// and row numbers add up to an even number, `0x111111` elsewhere.
pub proof fn law_floor_is_checkerboard(rows: Seq<Seq<char>>, block_size: int, px: int, py: int)
    requires
        block_size > 0,
        px >= 0,
        py >= 0,
        0 <= py / block_size < rows.len(),
        0 <= px / block_size < rows[py / block_size].len(),
        rows[py / block_size][px / block_size] != '+',
        rows[py / block_size][px / block_size] != '-',
        rows[py / block_size][px / block_size] != '|',
        forall|gx: int, gy: int|
            0 <= gy < rows.len() && 0 <= gx < rows[gy].len() && #[trigger] rows[gy][gx] == 'g'
                ==> !near_center(block_size, gx, gy, px, py),
    ensures
        ({
            let size = if block_size / 4 >= 1 {
                block_size / 4
            } else {
                1
            };
            maze_colors(rows, block_size)(px, py) == Some(
                if (px / size + py / size) % 2 == 0 {
                    0xE8E8E8u32
                } else {
                    0x111111u32
                },
            )
        }),
{
    let n = rows.len() as int;
    assert forall|gx: int, gy: int|
        !(#[trigger] marker_shows(rows, block_size, n, 0, gx, gy, px, py)) by {
        if marker_shows(rows, block_size, n, 0, gx, gy, px, py) {
            assert(rows[gy][gx] == 'g');
        }
    }
    assert(floor_pixel_before(rows, block_size, n, 0, px, py));
}

/// In the top-down view a pixel outside the blocks of the cells that are not
/// walls and away from every cell holding `g` keeps its colour.
pub proof fn law_rest_untouched(rows: Seq<Seq<char>>, block_size: int, px: int, py: int)
    requires
        !(block_size > 0 && px >= 0 && py >= 0 && 0 <= py / block_size < rows.len() && 0 <= px
            / block_size < rows[py / block_size].len() && rows[py / block_size][px / block_size]
            != '+' && rows[py / block_size][px / block_size] != '-' && rows[py / block_size][px
            / block_size] != '|'),
        forall|gx: int, gy: int|
            0 <= gy < rows.len() && 0 <= gx < rows[gy].len() && #[trigger] rows[gy][gx] == 'g'
                ==> !near_center(block_size, gx, gy, px, py),
    ensures
        maze_colors(rows, block_size)(px, py) is None,
{
    let n = rows.len() as int;
    assert forall|gx: int, gy: int|
        !(#[trigger] marker_shows(rows, block_size, n, 0, gx, gy, px, py)) by {
        if marker_shows(rows, block_size, n, 0, gx, gy, px, py) {
            assert(rows[gy][gx] == 'g');
        }
    }
    assert(!floor_pixel_before(rows, block_size, n, 0, px, py));
}

} // verus!
