use mazecaster::map::block_size;
use mazecaster::map::find_start;
use mazecaster::map::is_goal;
use mazecaster::map::is_walkable;
use mazecaster::map::is_wall;
use mazecaster::map::maze_width;
use mazecaster::map::parse_maze;
use mazecaster::map::probe_cell;
use mazecaster::map::Maze;
use mazecaster::map::RayCell;

fn maze(lines: &[&str]) -> Maze {
    lines.iter().map(|l| l.chars().collect()).collect()
}

fn rows(m: &Maze) -> Vec<String> {
    m.iter().map(|r| r.iter().collect()).collect()
}

#[test]
fn walls() {
    assert!(is_wall('+'));
    assert!(is_wall('-'));
    assert!(is_wall('|'));
    assert!(!is_wall(' '));
    assert!(!is_wall('p'));
    assert!(!is_wall('g'));
}

#[test]
fn parse_lines() {
    let m = parse_maze("+-+\n|p|\n+-+\n");
    assert_eq!(rows(&m), vec!["+-+", "|p|", "+-+"]);
}

#[test]
fn parse_without_final_newline() {
    assert_eq!(rows(&parse_maze("ab\ncd")), vec!["ab", "cd"]);
}

#[test]
fn parse_strips_carriage_return_before_newline_only() {
    assert_eq!(rows(&parse_maze("ab\r\ncd\r")), vec!["ab", "cd\r"]);
}

#[test]
fn parse_keeps_empty_lines() {
    assert_eq!(rows(&parse_maze("\n\nx\n")), vec!["", "", "x"]);
    assert_eq!(rows(&parse_maze("\n")), vec![""]);
}

#[test]
fn parse_empty_text() {
    assert!(parse_maze("").is_empty());
}

#[test]
fn parse_unicode_cells() {
    let m = parse_maze("é|\n");
    assert_eq!(m, vec![vec!['é', '|']]);
}

#[test]
fn law_lines_hold_no_newline_on_values() {
    let m = parse_maze("a\n\nb\r\nc");
    assert!(m.iter().all(|r| !r.contains(&'\n')));
}

#[test]
fn law_lines_rejoin_on_values() {
    let text = "+--+\n|pg|\n\n+--+\n";
    let m = parse_maze(text);
    let mut joined = String::new();
    for r in &m {
        joined.extend(r.iter());
        joined.push('\n');
    }
    assert_eq!(joined, text);
}

#[test]
fn walkable_cells() {
    let m = maze(&["+-+", "| g", "+"]);
    assert!(is_walkable(&m, 1, 1));
    assert!(is_walkable(&m, 2, 1));
    assert!(!is_walkable(&m, 0, 1));
    assert!(!is_walkable(&m, 1, 2));
    assert!(!is_walkable(&m, 3, 1));
    assert!(!is_walkable(&m, 0, 3));
}

#[test]
fn goal_cells() {
    let m = maze(&["+-+", "| g"]);
    assert!(is_goal(&m, 2, 1));
    assert!(!is_goal(&m, 1, 1));
    assert!(!is_goal(&m, 5, 1));
    assert!(!is_goal(&m, 0, 9));
}

#[test]
fn probing_cells() {
    let m = maze(&["+-+", "| |", "+-+"]);
    assert_eq!(probe_cell(&m, 1, 1), RayCell::Open);
    assert_eq!(probe_cell(&m, 0, 1), RayCell::Wall);
    assert_eq!(probe_cell(&m, -1, 1), RayCell::Outside);
    assert_eq!(probe_cell(&m, 1, -1), RayCell::Outside);
    assert_eq!(probe_cell(&m, 3, 1), RayCell::Outside);
    assert_eq!(probe_cell(&m, 1, 3), RayCell::Outside);
}

#[test]
fn start_is_last_p() {
    let m = maze(&["p  ", " p", "   "]);
    assert_eq!(find_start(&m), Some((1, 1)));
    let m = maze(&["  p", "p  "]);
    assert_eq!(find_start(&m), Some((0, 1)));
    let m = maze(&["pp"]);
    assert_eq!(find_start(&m), Some((1, 0)));
}

#[test]
fn no_start() {
    assert_eq!(find_start(&maze(&["+-+", "| |"])), None);
    assert_eq!(find_start(&Vec::new()), None);
}

#[test]
fn widths() {
    assert_eq!(maze_width(&maze(&["ab", "abcd", "a"])), 4);
    assert_eq!(maze_width(&Vec::new()), 1);
    assert_eq!(maze_width(&maze(&["", ""])), 0);
}

#[test]
fn block_sizes() {
    // 10 columns, 5 rows on 800 x 600: min(80, 120)
    let m = maze(&["+--------+", "|        |", "|        |", "|        |", "+--------+"]);
    assert_eq!(block_size(&m, 800, 600), 80);
    // 4 columns, 20 rows: min(200, 30)
    let tall: Vec<&str> = std::iter::repeat("+--+").take(20).collect();
    assert_eq!(block_size(&maze(&tall), 800, 600), 30);
}

#[test]
fn law_parse_after_join_on_values() {
    let m = maze(&["+-+", "|p|", "", "|g|", "+-+"]);
    let mut text = String::new();
    for r in &m {
        text.extend(r.iter());
        text.push('\n');
    }
    assert_eq!(parse_maze(&text), m);
}
