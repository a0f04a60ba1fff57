use mazebot::maze::Maze;
use mazebot::solver::{calculate_shortest_possible, solve_maze, Node, Pair};

fn maze_from(rows: &[&str], start: [i32; 2], end: [i32; 2]) -> Maze {
    Maze {
        name: String::from("test"),
        maze_path: String::from("/test"),
        starting_position: start,
        ending_position: end,
        map: rows.iter().map(|r| r.chars().collect()).collect(),
    }
}

fn replay(start: [i32; 2], moves: &Vec<char>) -> [i32; 2] {
    let mut p = start;
    for c in moves {
        p = match c {
            'N' => [p[0], p[1] - 1],
            'S' => [p[0], p[1] + 1],
            'E' => [p[0] + 1, p[1]],
            'W' => [p[0] - 1, p[1]],
            _ => panic!("not a move: {}", c),
        };
    }
    p
}

fn assert_valid(maze: &Maze, moves: &Vec<char>) {
    let mut p = maze.starting_position;
    for c in moves {
        p = replay(p, &vec![*c]);
        assert!(p[0] >= 0 && (p[0] as usize) < maze.map[0].len());
        assert!(p[1] >= 0 && (p[1] as usize) < maze.map.len());
        assert_ne!(maze.map[p[1] as usize][p[0] as usize], 'X');
    }
    assert_eq!(p, maze.ending_position);
}

#[test]
fn open_three_by_three() {
    let maze = maze_from(&["...", "...", "..."], [0, 0], [2, 2]);
    let moves = solve_maze(&maze);
    assert_eq!(moves.len(), 4);
    assert_eq!(moves.iter().filter(|c| **c == 'E').count(), 2);
    assert_eq!(moves.iter().filter(|c| **c == 'S').count(), 2);
    assert_valid(&maze, &moves);
}

#[test]
fn middle_row_walled_is_disconnected() {
    let maze = maze_from(&["...", "XXX", "..."], [0, 0], [2, 2]);
    let moves = solve_maze(&maze);
    assert!(moves.is_empty());
}

#[test]
fn start_equals_goal_yields_empty() {
    let maze = maze_from(&["...", "...", "..."], [1, 1], [1, 1]);
    assert!(solve_maze(&maze).is_empty());
}

#[test]
fn single_cell_maze() {
    let maze = maze_from(&["."], [0, 0], [0, 0]);
    assert!(solve_maze(&maze).is_empty());
}

#[test]
fn enclosed_goal_is_unreachable() {
    let maze = maze_from(&[".....", ".XXX.", ".X.X.", ".XXX.", "....."], [0, 0], [2, 2]);
    assert!(solve_maze(&maze).is_empty());
}

#[test]
fn walled_start_is_unreachable() {
    let maze = maze_from(&["X.", ".."], [0, 0], [1, 1]);
    assert!(solve_maze(&maze).is_empty());
}

#[test]
fn walled_goal_is_unreachable() {
    let maze = maze_from(&[".X", ".."], [0, 0], [1, 0]);
    assert!(solve_maze(&maze).is_empty());
}

#[test]
fn repeated_runs_are_identical() {
    let maze = maze_from(&["....", ".X..", "..X.", "...."], [0, 0], [3, 3]);
    let first = solve_maze(&maze);
    let second = solve_maze(&maze);
    assert_eq!(first, second);
    assert_eq!(first.len(), 6);
    assert_valid(&maze, &first);
}

#[test]
fn detour_around_wall() {
    let maze = maze_from(&[".X.", ".X.", "..."], [0, 0], [2, 0]);
    let moves = solve_maze(&maze);
    assert_eq!(moves.len(), 6);
    assert_valid(&maze, &moves);
}

#[test]
fn straight_corridor() {
    let maze = maze_from(&["....."], [0, 0], [4, 0]);
    let moves = solve_maze(&maze);
    assert_eq!(moves, vec!['E', 'E', 'E', 'E']);
    assert_valid(&maze, &moves);
}

#[test]
fn corridor_with_turns() {
    let maze = maze_from(&["...", "X.X", "..."], [0, 0], [2, 2]);
    let moves = solve_maze(&maze);
    assert_eq!(moves.len(), 4);
    assert_valid(&maze, &moves);
}

#[test]
fn manhattan_distance_formula() {
    assert_eq!(calculate_shortest_possible([0, 0], [2, 2]), 4);
    assert_eq!(calculate_shortest_possible([3, 1], [1, 4]), 5);
    assert_eq!(calculate_shortest_possible([2, 2], [2, 2]), 0);
}

#[test]
fn node_id_and_coordinates() {
    let n = Node::new(7, 3, 4);
    assert_eq!(n.x(), 1);
    assert_eq!(n.y(), 2);
    assert_eq!(n.id(), 7);
    assert_eq!(n.g, -1);
    assert_eq!(n.h, -1);
}

#[test]
fn node_priority_is_negated_cost() {
    let mut n = Node::from_pos([1, 1], 3, 3);
    n.g = 2;
    n.h = 3;
    assert_eq!(n.f(), -5);
}

#[test]
fn pair_holds_key_and_value() {
    let p = Pair::new(-4, 9);
    assert_eq!(p.key, -4);
    assert_eq!(p.value, 9);
}

#[test]
fn larger_maze_shortest_length() {
    let maze = maze_from(
        &["......", ".XXXX.", ".X..X.", ".X.XX.", ".X....", "......"],
        [2, 2],
        [0, 0],
    );
    let moves = solve_maze(&maze);
    assert_valid(&maze, &moves);
    assert_eq!(moves.len(), 10);
}
