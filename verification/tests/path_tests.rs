use resource_sim::map::{CellType, Position, WorldMap};
use resource_sim::path::bfs_next_step;
use resource_sim::posmap::PositionMap;

/// A map drawn row by row: `#` obstacle, `.` empty.
fn map_from(rows: &[&str]) -> WorldMap {
    let height = rows.len();
    let width = rows[0].len();
    let cells = rows
        .iter()
        .map(|r| r.chars().map(|c| if c == '#' { CellType::Obstacle } else { CellType::Empty }).collect())
        .collect();
    WorldMap { width, height, cells, resources: PositionMap::new(), base_position: Position::new(0, 0) }
}

fn manhattan(a: Position, b: Position) -> usize {
    let dx = if a.x > b.x { a.x - b.x } else { b.x - a.x };
    let dy = if a.y > b.y { a.y - b.y } else { b.y - a.y };
    dx + dy
}

/// Follows the first steps until the goal; returns the number of steps.
fn walk(m: &WorldMap, from: Position, to: Position) -> Option<usize> {
    let mut cur = from;
    let mut steps = 0;
    while cur != to {
        let next = bfs_next_step(m, cur, to)?;
        assert_eq!(manhattan(cur, next), 1);
        assert!(next == to || m.get_cell(next) != CellType::Obstacle);
        cur = next;
        steps += 1;
        assert!(steps <= m.width * m.height);
    }
    Some(steps)
}

#[test]
fn bfs_same_cell_is_none() {
    let m = map_from(&["...", "...", "..."]);
    assert_eq!(bfs_next_step(&m, Position::new(1, 1), Position::new(1, 1)), None);
}

#[test]
fn bfs_straight_line_steps_toward_goal() {
    let m = map_from(&["....."]);
    assert_eq!(bfs_next_step(&m, Position::new(0, 0), Position::new(4, 0)), Some(Position::new(1, 0)));
    assert_eq!(bfs_next_step(&m, Position::new(4, 0), Position::new(0, 0)), Some(Position::new(3, 0)));
}

#[test]
fn bfs_prefers_up_then_down_then_left_then_right_on_ties() {
    let m = map_from(&["...", "...", "..."]);
    // from the centre to a corner: up and left both start shortest walks,
    // and up is tried first
    assert_eq!(bfs_next_step(&m, Position::new(1, 1), Position::new(0, 0)), Some(Position::new(1, 0)));
    assert_eq!(bfs_next_step(&m, Position::new(1, 1), Position::new(2, 2)), Some(Position::new(1, 2)));
}

#[test]
fn bfs_goes_around_a_wall() {
    let m = map_from(&[
        ".#...",
        ".#.#.",
        "...#.",
    ]);
    let from = Position::new(0, 0);
    let to = Position::new(4, 0);
    assert_eq!(bfs_next_step(&m, from, to), Some(Position::new(0, 1)));
    assert_eq!(walk(&m, from, to), Some(8));
}

#[test]
fn bfs_unreachable_goal_is_none() {
    let m = map_from(&[
        "..#..",
        "..#..",
        "..#..",
    ]);
    assert_eq!(bfs_next_step(&m, Position::new(0, 0), Position::new(4, 2)), None);
    assert_eq!(bfs_next_step(&m, Position::new(0, 0), Position::new(7, 0)), None);
}

#[test]
fn bfs_may_enter_an_obstacle_goal() {
    let m = map_from(&["..#"]);
    assert_eq!(bfs_next_step(&m, Position::new(1, 0), Position::new(2, 0)), Some(Position::new(2, 0)));
    // but no other obstacle on the way
    let n = map_from(&[".##"]);
    assert_eq!(bfs_next_step(&n, Position::new(0, 0), Position::new(2, 0)), None);
}

#[test]
fn bfs_walks_are_shortest() {
    let m = map_from(&[
        "........",
        ".######.",
        ".#....#.",
        ".#.##.#.",
        "...#....",
    ]);
    assert_eq!(walk(&m, Position::new(0, 0), Position::new(7, 4)), Some(11));
    assert_eq!(walk(&m, Position::new(2, 2), Position::new(5, 3)), Some(4));
    assert_eq!(walk(&m, Position::new(2, 3), Position::new(0, 4)), Some(3));
}

#[test]
fn bfs_from_an_obstacle_start() {
    let m = map_from(&["#.."]);
    assert_eq!(bfs_next_step(&m, Position::new(0, 0), Position::new(2, 0)), Some(Position::new(1, 0)));
}

#[test]
fn bfs_open_grid_corner_to_centre_steps_down_first() {
    let m = map_from(&["...", "...", "..."]);
    // both (0, 1) and (1, 0) start shortest walks; down is tried before right
    assert_eq!(bfs_next_step(&m, Position::new(0, 0), Position::new(1, 1)), Some(Position::new(0, 1)));
    // from the opposite corner up comes before left
    assert_eq!(bfs_next_step(&m, Position::new(2, 2), Position::new(1, 1)), Some(Position::new(2, 1)));
}
