//! The maze: rows of cells, one character per cell. `+`, `-` and `|` are
//! walls, `p` marks where the player starts and `g` the goal.

use vstd::prelude::*;

verus! {

/// Rows of cells; row `y`, column `x` is `maze[y][x]`.
pub type Maze = Vec<Vec<char>>;

/// The cells of a maze as a sequence of rows.
pub open spec fn grid(maze: &Maze) -> Seq<Seq<char>> {
    maze@.map_values(|row: Vec<char>| row@)
}

/// A wall cell.
pub open spec fn wall(cell: char) -> bool {
    cell == '+' || cell == '-' || cell == '|'
}

/// `(x, y)` is a cell of the maze.
pub open spec fn in_grid(rows: Seq<Seq<char>>, x: int, y: int) -> bool {
    0 <= y < rows.len() && 0 <= x < rows[y].len()
}

/// Whether a cell character is a wall.
pub fn is_wall(cell: char) -> (b: bool)
    ensures
        b == wall(cell),
{
    cell == '+' || cell == '-' || cell == '|'
}

/// Whether `(x, y)` is a cell of the maze that is not a wall: the cells the
/// player may stand on.
pub fn is_walkable(maze: &Maze, x: usize, y: usize) -> (b: bool)
    ensures
        b == (in_grid(grid(maze), x as int, y as int) && !wall(grid(maze)[y as int][x as int])),
{
    if y >= maze.len() || x >= maze[y].len() {
        return false;
    }
    !is_wall(maze[y][x])
}

/// Whether `(x, y)` is a cell of the maze holding the goal `g`.
pub fn is_goal(maze: &Maze, x: usize, y: usize) -> (b: bool)
    ensures
        b == (in_grid(grid(maze), x as int, y as int) && grid(maze)[y as int][x as int] == 'g'),
{
    if y >= maze.len() || x >= maze[y].len() {
        return false;
    }
    maze[y][x] == 'g'
}

/// What a ray meets in a grid square.
#[derive(Clone, Copy, Debug, PartialEq, Eq, Structural)]
pub enum RayCell {
    /// The square lies outside the maze.
    Outside,
    /// A wall cell.
    Wall,
    /// A cell the ray passes through.
    Open,
}

/// What a ray meets at grid square `(x, y)`.
pub fn probe_cell(maze: &Maze, x: i32, y: i32) -> (cell: RayCell)
    ensures
        cell == (if !in_grid(grid(maze), x as int, y as int) {
            RayCell::Outside
        } else if wall(grid(maze)[y as int][x as int]) {
            RayCell::Wall
        } else {
            RayCell::Open
        }),
{
    if y < 0 || x < 0 || y as usize >= maze.len() || x as usize >= maze[y as usize].len() {
        return RayCell::Outside;
    }
    if is_wall(maze[y as usize][x as usize]) {
        RayCell::Wall
    } else {
        RayCell::Open
    }
}

/// `(x1, y1)` comes after `(x0, y0)` in row-major order.
pub open spec fn after(x1: int, y1: int, x0: int, y0: int) -> bool {
    y1 > y0 || (y1 == y0 && x1 > x0)
}

/// The last cell marked `p`, in row-major order, as `(x, y)`; `None` when no
/// cell is marked.
pub fn find_start(maze: &Maze) -> (start: Option<(usize, usize)>)
    ensures
        start is None <==> (forall|x: int, y: int|
            in_grid(grid(maze), x, y) ==> grid(maze)[y][x] != 'p'),
        start matches Some((x, y)) ==> {
            &&& in_grid(grid(maze), x as int, y as int)
            &&& grid(maze)[y as int][x as int] == 'p'
            &&& forall|x1: int, y1: int|
                in_grid(grid(maze), x1, y1) && after(x1, y1, x as int, y as int) ==> grid(
                    maze,
                )[y1][x1] != 'p'
        },
{
    let ghost rows = grid(maze);
    let mut found: Option<(usize, usize)> = None;
    let mut y: usize = 0;
    while y < maze.len()
        invariant
            0 <= y <= maze@.len(),
            rows == grid(maze),
            rows.len() == maze@.len(),
            found is None <==> (forall|x1: int, y1: int|
                in_grid(rows, x1, y1) && y1 < y ==> rows[y1][x1] != 'p'),
            found matches Some((fx, fy)) ==> {
                &&& in_grid(rows, fx as int, fy as int)
                &&& fy < y
                &&& rows[fy as int][fx as int] == 'p'
                &&& forall|x1: int, y1: int|
                    in_grid(rows, x1, y1) && y1 < y && after(x1, y1, fx as int, fy as int)
                        ==> rows[y1][x1] != 'p'
            },
        decreases maze@.len() - y,
    {
        let row = &maze[y];
        assert(row@ == rows[y as int]);
        let mut x: usize = 0;
        while x < row.len()
            invariant
                0 <= y < rows.len(),
                0 <= x <= row@.len(),
                row@ == rows[y as int],
                found is None <==> (forall|x1: int, y1: int|
                    in_grid(rows, x1, y1) && (y1 < y || (y1 == y && x1 < x)) ==> rows[y1][x1]
                        != 'p'),
                found matches Some((fx, fy)) ==> {
                    &&& in_grid(rows, fx as int, fy as int)
                    &&& (fy < y || (fy == y && fx < x))
                    &&& rows[fy as int][fx as int] == 'p'
                    &&& forall|x1: int, y1: int|
                        in_grid(rows, x1, y1) && (y1 < y || (y1 == y && x1 < x)) && after(
                            x1,
                            y1,
                            fx as int,
                            fy as int,
                        ) ==> rows[y1][x1] != 'p'
                },
            decreases row@.len() - x,
        {
            if row[x] == 'p' {
                found = Some((x, y));
                assert(in_grid(rows, x as int, y as int) && rows[y as int][x as int] == 'p');
            } else {
                assert(rows[y as int][x as int] != 'p');
            }
            x = x + 1;
        }
        y = y + 1;
    }
    found
}


/// `width` is the length of the longest row.
pub open spec fn widest(rows: Seq<Seq<char>>, width: int) -> bool {
    &&& forall|y: int| 0 <= y < rows.len() ==> #[trigger] rows[y].len() <= width
    &&& exists|y: int| 0 <= y < rows.len() && #[trigger] rows[y].len() == width
}

/// The length of the longest row, or 1 for a maze without rows.
pub fn maze_width(maze: &Maze) -> (width: usize)
    ensures
        maze@.len() == 0 ==> width == 1,
        maze@.len() > 0 ==> widest(grid(maze), width as int),
{
    if maze.len() == 0 {
        return 1;
    }
    let ghost rows = grid(maze);
    let mut best: usize = maze[0].len();
    let mut y: usize = 1;
    assert(rows[0].len() == best);
    while y < maze.len()
        invariant
            1 <= y <= maze@.len(),
            rows == grid(maze),
            rows.len() == maze@.len(),
            forall|y1: int| 0 <= y1 < y ==> #[trigger] rows[y1].len() <= best,
            exists|y1: int| 0 <= y1 < y && #[trigger] rows[y1].len() == best,
        decreases maze@.len() - y,
    {
        let n = maze[y].len();
        assert(rows[y as int].len() == n);
        if n > best {
            best = n;
        }
        y = y + 1;
    }
    best
}

/// The side, in pixels, of the largest square block that fits the whole
/// maze on a `screen_width * screen_height` screen: the smaller of the
/// screen width over the longest row and the screen height over the rows.
pub fn block_size(maze: &Maze, screen_width: usize, screen_height: usize) -> (size: usize)
    requires
        exists|y: int| 0 <= y < maze@.len() && maze@[y]@.len() > 0,
    ensures
        forall|width: int|
            widest(grid(maze), width) ==> size as int == if (screen_width as int) / width <= (
            screen_height as int) / (maze@.len() as int) {
                (screen_width as int) / width
            } else {
                (screen_height as int) / (maze@.len() as int)
            },
{
    let width = maze_width(maze);
    proof {
        let y = choose|y: int| 0 <= y < maze@.len() && maze@[y]@.len() > 0;
        assert(grid(maze)[y].len() > 0);
        assert forall|w2: int| widest(grid(maze), w2) implies w2 == width by {
            let y1 = choose|y1: int| 0 <= y1 < grid(maze).len() && #[trigger] grid(maze)[y1].len()
                == w2;
            let y2 = choose|y2: int| 0 <= y2 < grid(maze).len() && #[trigger] grid(maze)[y2].len()
                == width;
            assert(grid(maze)[y1].len() <= width);
            assert(grid(maze)[y2].len() <= w2);
        }
    }
    let across = screen_width / width;
    let down = screen_height / maze.len();
    if across <= down {
        across
    } else {
        down
    }
}


/// The pieces of `text` between newlines: one more than there are `'\n'`.
pub open spec fn split_newlines(text: Seq<char>) -> Seq<Seq<char>>
    decreases text.len(),
{
    if text.len() == 0 {
        seq![Seq::empty()]
    } else {
        let front = split_newlines(text.drop_last());
        if text.last() == '\n' {
            front.push(Seq::empty())
        } else {
            front.update(front.len() - 1, front.last().push(text.last()))
        }
    }
}

/// A line without one `'\r'` at its end.
pub open spec fn strip_cr(line: Seq<char>) -> Seq<char> {
    if line.len() > 0 && line.last() == '\r' {
        line.drop_last()
    } else {
        line
    }
}

/// The lines of `text` as `std::io::BufRead::lines` yields them: every
/// piece ended by `'\n'`, less a `'\r'` just before that `'\n'`, then the
/// piece after the last `'\n'` when it is not empty.
pub open spec fn text_lines(text: Seq<char>) -> Seq<Seq<char>> {
    let pieces = split_newlines(text);
    let ended = pieces.drop_last().map_values(|line: Seq<char>| strip_cr(line));
    if pieces.last().len() == 0 {
        ended
    } else {
        ended.push(pieces.last())
    }
}

/// There is always at least one piece.
pub proof fn lemma_split_newlines_nonempty(text: Seq<char>)
    ensures
        split_newlines(text).len() >= 1,
    decreases text.len(),
{
    if text.len() > 0 {
        lemma_split_newlines_nonempty(text.drop_last());
    }
}

/// A maze whose rows are the lines of `text`, one cell per character.
pub fn parse_maze(text: &str) -> (maze: Maze)
    ensures
        grid(&maze) == text_lines(text@),
{
    let mut maze: Maze = Vec::new();
    let mut line: Vec<char> = Vec::new();
    let ghost all = text@;
    proof {
        assert(all.take(0) =~= Seq::<char>::empty());
    }
    for c in it: text.chars()
        invariant
            it.seq() == all,
            grid(&maze) == split_newlines(all.take(it.index() as int)).drop_last().map_values(
                |l: Seq<char>| strip_cr(l),
            ),
            line@ == split_newlines(all.take(it.index() as int)).last(),
    {
        let ghost done = all.take(it.index() as int);
        let ghost next = all.take(it.index() + 1);
        proof {
            assert(next.drop_last() =~= done);
            assert(next.last() == c);
            lemma_split_newlines_nonempty(done);
        }
        if c == '\n' {
            let n = line.len();
            if n > 0 && line[n - 1] == '\r' {
                line.pop();
            }
            assert(line@ == strip_cr(split_newlines(done).last()));
            let ghost before = grid(&maze);
            maze.push(line);
            line = Vec::new();
            assert(split_newlines(next) == split_newlines(done).push(Seq::empty()));
            assert(split_newlines(next).drop_last() =~= split_newlines(done));
            assert(grid(&maze) =~= before.push(strip_cr(split_newlines(done).last())));
            assert(split_newlines(done) =~= split_newlines(done).drop_last().push(
                split_newlines(done).last(),
            ));
            assert(grid(&maze) =~= split_newlines(next).drop_last().map_values(
                |l: Seq<char>| strip_cr(l),
            ));
        } else {
            line.push(c);
            assert(split_newlines(next).drop_last() =~= split_newlines(done).drop_last());
        }
    }
    proof {
        assert(all.take(all.len() as int) =~= all);
        lemma_split_newlines_nonempty(all);
    }
    if line.len() > 0 {
        maze.push(line);
        assert(grid(&maze) =~= text_lines(all));
    } else {
        assert(grid(&maze) =~= text_lines(all));
    }
    maze
}


/// Each line followed by `'\n'`, all in order.
pub open spec fn join_lines(lines: Seq<Seq<char>>) -> Seq<char>
    decreases lines.len(),
{
    if lines.len() == 0 {
        Seq::empty()
    } else {
        join_lines(lines.drop_last()) + lines.last().push('\n')
    }
}

/// No piece holds a `'\n'`, nor a `'\r'` unless the text does.
proof fn lemma_pieces_chars(text: Seq<char>)
    ensures
        forall|i: int, j: int|
            0 <= i < split_newlines(text).len() && 0 <= j < split_newlines(text)[i].len() ==> {
                &&& split_newlines(text)[i][j] != '\n'
                &&& !text.contains('\r') ==> split_newlines(text)[i][j] != '\r'
            },
    decreases text.len(),
{
    if text.len() > 0 {
        let front = text.drop_last();
        lemma_pieces_chars(front);
        lemma_split_newlines_nonempty(front);
        if !text.contains('\r') {
            assert(!front.contains('\r')) by {
                if front.contains('\r') {
                    let k = choose|k: int| 0 <= k < front.len() && front[k] == '\r';
                    assert(text[k] == '\r');
                }
            }
            assert(text[text.len() - 1] != '\r');
        }
    }
}

/// The pieces, each but the last followed by `'\n'`, give back the text.
proof fn lemma_pieces_rejoin(text: Seq<char>)
    ensures
        split_newlines(text).len() >= 1,
        join_lines(split_newlines(text).drop_last()) + split_newlines(text).last() == text,
    decreases text.len(),
{
    lemma_split_newlines_nonempty(text);
    if text.len() == 0 {
        assert(join_lines(split_newlines(text).drop_last()) + split_newlines(text).last()
            =~= text);
    } else {
        let front = text.drop_last();
        let p = split_newlines(front);
        lemma_pieces_rejoin(front);
        if text.last() == '\n' {
            assert(split_newlines(text).drop_last() =~= p);
            assert(join_lines(p) == join_lines(p.drop_last()) + p.last().push('\n'));
            assert(join_lines(p) =~= (join_lines(p.drop_last()) + p.last()).push('\n'));
            assert(text =~= front.push('\n'));
            assert(split_newlines(text).last() =~= Seq::<char>::empty());
            assert(join_lines(split_newlines(text).drop_last()) + split_newlines(text).last()
                =~= text);
        } else {
            assert(split_newlines(text).drop_last() =~= p.drop_last());
            assert(split_newlines(text).last() == p.last().push(text.last()));
            assert(join_lines(p.drop_last()) + p.last().push(text.last()) =~= (join_lines(
                p.drop_last(),
            ) + p.last()).push(text.last()));
            assert(text =~= front.push(text.last()));
            assert(join_lines(split_newlines(text).drop_last()) + split_newlines(text).last()
                =~= text);
        }
    }
}

/// No line holds a `'\n'`.
pub proof fn law_lines_hold_no_newline(text: Seq<char>)
    ensures
        forall|i: int|
            0 <= i < text_lines(text).len() ==> !(#[trigger] text_lines(text)[i]).contains('\n'),
{
    lemma_pieces_chars(text);
    lemma_split_newlines_nonempty(text);
    let p = split_newlines(text);
    assert forall|i: int| 0 <= i < text_lines(text).len() implies !(
    #[trigger] text_lines(text)[i]).contains('\n') by {
        let line = text_lines(text)[i];
        if line.contains('\n') {
            let j = choose|j: int| 0 <= j < line.len() && line[j] == '\n';
            if i < p.len() - 1 {
                assert(line == strip_cr(p[i]));
                assert(p[i][j] == '\n');
            } else {
                assert(line == p[i]);
            }
        }
    }
}

/// A text without `'\r'` whose every line ends in `'\n'` is its lines,
/// each followed by `'\n'`.
pub proof fn law_lines_rejoin(text: Seq<char>)
    requires
        !text.contains('\r'),
        text.len() == 0 || text.last() == '\n',
    ensures
        join_lines(text_lines(text)) == text,
{
    lemma_pieces_rejoin(text);
    lemma_pieces_chars(text);
    let p = split_newlines(text);
    if text.len() > 0 {
        assert(p == split_newlines(text.drop_last()).push(Seq::empty()));
    }
    assert(p.last().len() == 0);
    assert(text_lines(text) =~= p.drop_last()) by {
        assert forall|i: int| 0 <= i < p.len() - 1 implies strip_cr(p[i]) == p[i] by {
            if p[i].len() > 0 {
                assert(p[i][p[i].len() - 1] != '\r');
            }
        }
    }
    assert(join_lines(p.drop_last()) + p.last() =~= join_lines(p.drop_last()));
}


/// Appending characters other than `'\n'` extends the last piece.
proof fn lemma_split_append_line(text: Seq<char>, line: Seq<char>)
    requires
        !line.contains('\n'),
    ensures
        split_newlines(text + line) == split_newlines(text).update(
            split_newlines(text).len() - 1,
            split_newlines(text).last() + line,
        ),
    decreases line.len(),
{
    lemma_split_newlines_nonempty(text);
    if line.len() == 0 {
        assert(text + line =~= text);
        assert(split_newlines(text).last() + line =~= split_newlines(text).last());
        assert(split_newlines(text).update(
            split_newlines(text).len() - 1,
            split_newlines(text).last(),
        ) =~= split_newlines(text));
    } else {
        let init = line.drop_last();
        let c = line.last();
        assert(!init.contains('\n')) by {
            if init.contains('\n') {
                let k = choose|k: int| 0 <= k < init.len() && init[k] == '\n';
                assert(line[k] == '\n');
            }
        }
        assert(c != '\n') by {
            assert(line[line.len() - 1] == c);
        }
        lemma_split_append_line(text, init);
        assert((text + line).drop_last() =~= text + init);
        assert((text + line).last() == c);
        lemma_split_newlines_nonempty(text + init);
        assert(split_newlines(text + line) =~= split_newlines(text).update(
            split_newlines(text).len() - 1,
            split_newlines(text).last() + line,
        )) by {
            assert(split_newlines(text).last() + init + seq![c] =~= split_newlines(text).last()
                + line);
            assert((split_newlines(text).last() + init).push(c) =~= split_newlines(text).last()
                + line);
        }
    }
}

/// The text of lines with no `'\n'` splits back into those lines and an
/// empty last piece.
proof fn lemma_split_join(lines: Seq<Seq<char>>)
    requires
        forall|i: int| 0 <= i < lines.len() ==> !(#[trigger] lines[i]).contains('\n'),
    ensures
        split_newlines(join_lines(lines)) == lines.push(Seq::empty()),
    decreases lines.len(),
{
    if lines.len() == 0 {
        assert(split_newlines(join_lines(lines)) =~= lines.push(Seq::empty()));
    } else {
        let init = lines.drop_last();
        let line = lines.last();
        assert(!line.contains('\n')) by {
            assert(lines[lines.len() - 1] == line);
        }
        lemma_split_join(init);
        let front = join_lines(init);
        lemma_split_append_line(front, line);
        let joined = join_lines(lines);
        assert(joined == front + line.push('\n'));
        assert(joined.drop_last() =~= front + line);
        assert(joined.last() == '\n');
        assert(split_newlines(front + line) =~= init.push(line)) by {
            assert(Seq::<char>::empty() + line =~= line);
        }
        assert(init.push(line) =~= lines);
        assert(split_newlines(joined) =~= lines.push(Seq::empty()));
    }
}

/// Lines without `'\n'` and not ending in `'\r'`, each written followed by
/// `'\n'`, read back as the same lines: a maze saved as text loads back
/// unchanged.
pub proof fn law_parse_after_join(lines: Seq<Seq<char>>)
    requires
        forall|i: int|
            0 <= i < lines.len() ==> !(#[trigger] lines[i]).contains('\n') && !(lines[i].len() > 0
                && lines[i].last() == '\r'),
    ensures
        text_lines(join_lines(lines)) == lines,
{
    lemma_split_join(lines);
    let pieces = split_newlines(join_lines(lines));
    assert(pieces.drop_last() =~= lines);
    assert(text_lines(join_lines(lines)) =~= lines) by {
        assert forall|i: int| 0 <= i < lines.len() implies strip_cr(lines[i]) == lines[i] by {}
    }
}


/// Lines without `'\n'` and not ending in `'\r'`, each written followed by
/// `"\r\n"`, read back as the same lines: every line loses its `'\r'`,
/// wherever it stands.
pub proof fn law_parse_after_join_crlf(lines: Seq<Seq<char>>)
    requires
        forall|i: int|
            0 <= i < lines.len() ==> !(#[trigger] lines[i]).contains('\n') && !(lines[i].len() > 0
                && lines[i].last() == '\r'),
    ensures
        text_lines(join_lines(lines.map_values(|line: Seq<char>| line.push('\r')))) == lines,
{
    let crlf = lines.map_values(|line: Seq<char>| line.push('\r'));
    assert forall|i: int| 0 <= i < crlf.len() implies !(#[trigger] crlf[i]).contains('\n') by {
        if crlf[i].contains('\n') {
            let j = choose|j: int| 0 <= j < crlf[i].len() && crlf[i][j] == '\n';
            if j < lines[i].len() {
                assert(lines[i][j] == '\n');
            }
        }
    }
    lemma_split_join(crlf);
    let pieces = split_newlines(join_lines(crlf));
    assert(pieces.drop_last() =~= crlf);
    assert(text_lines(join_lines(crlf)) =~= lines) by {
        assert forall|i: int| 0 <= i < lines.len() implies strip_cr(crlf[i]) == lines[i] by {
            assert(crlf[i].drop_last() =~= lines[i]);
        }
    }
}

} // verus!
