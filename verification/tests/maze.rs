use mazey::direction::{Direction, ALL_DIRECTIONS};
use mazey::maze::{CellData, CellPos, Maze, MazeError};

fn at(row: i32, col: i32) -> CellPos {
    CellPos { row, col }
}

fn build(rows: usize, columns: usize) -> Maze {
    match Maze::new(rows, columns) {
        Ok(maze) => maze,
        Err(error) => panic!("no maze of {} by {}: {:?}", rows, columns, error),
    }
}

#[test]
fn new_rejects_zero_rows() {
    assert_eq!(Maze::new(0, 5).err(), Some(MazeError::InvalidDimensions));
}

#[test]
fn new_rejects_zero_columns() {
    assert_eq!(Maze::new(5, 0).err(), Some(MazeError::InvalidDimensions));
}

#[test]
fn new_rejects_zero_by_zero() {
    assert_eq!(Maze::new(0, 0).err(), Some(MazeError::InvalidDimensions));
}

#[test]
fn new_accepts_one_by_one() {
    let maze = build(1, 1);
    assert_eq!(maze.rows, 1);
    assert_eq!(maze.columns, 1);
    assert_eq!(maze.cells, vec![CellData { door_mask: 0, mark: 0 }]);
}

#[test]
fn new_maze_has_all_doors_closed_and_no_marks() {
    let maze = build(3, 4);
    assert_eq!(maze.rows, 3);
    assert_eq!(maze.columns, 4);
    assert_eq!(maze.cells.len(), 12);
    for row in 0..3 {
        for col in 0..4 {
            for d in ALL_DIRECTIONS {
                assert!(!maze.can_go(at(row, col), d));
            }
            assert_eq!(maze.get_mark(at(row, col)), 0);
        }
    }
}

#[test]
fn cell_data_new_is_closed_and_unmarked() {
    assert_eq!(CellData::new(), CellData { door_mask: 0, mark: 0 });
}

#[test]
fn to_index_is_row_major() {
    let maze = build(3, 4);
    assert_eq!(at(0, 0).to_index(&maze), 0);
    assert_eq!(at(0, 3).to_index(&maze), 3);
    assert_eq!(at(1, 0).to_index(&maze), 4);
    assert_eq!(at(2, 1).to_index(&maze), 9);
    assert_eq!(at(2, 3).to_index(&maze), 11);
}

#[test]
fn is_in_maze_holds_inside_only() {
    let maze = build(3, 4);
    assert!(at(0, 0).is_in_maze(&maze));
    assert!(at(2, 3).is_in_maze(&maze));
    assert!(!at(3, 0).is_in_maze(&maze));
    assert!(!at(0, 4).is_in_maze(&maze));
    assert!(!at(-1, 0).is_in_maze(&maze));
    assert!(!at(0, -1).is_in_maze(&maze));
    assert!(!at(i32::MAX, i32::MAX).is_in_maze(&maze));
    assert!(!at(i32::MIN, i32::MIN).is_in_maze(&maze));
}

#[test]
fn go_moves_one_step() {
    let from = at(4, 7);
    assert_eq!(from.go(&Direction::Up), at(3, 7));
    assert_eq!(from.go(&Direction::Down), at(5, 7));
    assert_eq!(from.go(&Direction::Left), at(4, 6));
    assert_eq!(from.go(&Direction::Right), at(4, 8));
    assert_eq!(from.go(&Direction::Nowhere), at(4, 7));
}

#[test]
fn go_may_leave_the_maze() {
    let maze = build(2, 2);
    let out = at(0, 0).go(&Direction::Up);
    assert_eq!(out, at(-1, 0));
    assert!(!out.is_in_maze(&maze));
}

#[test]
fn can_go_outside_is_false() {
    let mut maze = build(2, 2);
    maze.open_door(at(0, 0), &Direction::Left);
    for d in ALL_DIRECTIONS {
        assert!(!maze.can_go(at(-1, 0), d));
        assert!(!maze.can_go(at(0, -1), d));
        assert!(!maze.can_go(at(2, 0), d));
        assert!(!maze.can_go(at(0, 2), d));
    }
}

#[test]
fn can_go_nowhere_is_false() {
    let mut maze = build(2, 2);
    for d in ALL_DIRECTIONS {
        maze.open_door(at(0, 0), &d);
    }
    assert!(!maze.can_go(at(0, 0), Direction::Nowhere));
}

#[test]
fn open_door_opens_both_sides() {
    let mut maze = build(2, 3);
    maze.open_door(at(0, 1), &Direction::Right);
    assert!(maze.can_go(at(0, 1), Direction::Right));
    assert!(maze.can_go(at(0, 2), Direction::Left));
    assert_eq!(maze.cells[1].door_mask, 8);
    assert_eq!(maze.cells[2].door_mask, 4);
    maze.open_door(at(1, 1), &Direction::Up);
    assert!(maze.can_go(at(1, 1), Direction::Up));
    assert!(maze.can_go(at(0, 1), Direction::Down));
    assert_eq!(maze.cells[1].door_mask, 10);
    assert_eq!(maze.cells[4].door_mask, 1);
}

#[test]
fn open_door_touches_no_other_cell() {
    let mut maze = build(3, 3);
    maze.open_door(at(1, 1), &Direction::Down);
    for row in 0..3 {
        for col in 0..3 {
            for d in ALL_DIRECTIONS {
                let expected = (row == 1 && col == 1 && d == Direction::Down)
                    || (row == 2 && col == 1 && d == Direction::Up);
                assert_eq!(maze.can_go(at(row, col), d), expected);
            }
            assert_eq!(maze.get_mark(at(row, col)), 0);
        }
    }
}

#[test]
fn open_door_twice_is_the_same_as_once() {
    let mut maze = build(2, 2);
    maze.open_door(at(0, 0), &Direction::Down);
    let once = maze.cells.clone();
    maze.open_door(at(0, 0), &Direction::Down);
    assert_eq!(maze.cells, once);
}

#[test]
fn open_door_on_the_rim_opens_one_side_only() {
    let mut maze = build(2, 2);
    maze.open_door(at(1, 0), &Direction::Left);
    assert!(maze.can_go(at(1, 0), Direction::Left));
    assert_eq!(
        maze.cells,
        vec![
            CellData { door_mask: 0, mark: 0 },
            CellData { door_mask: 0, mark: 0 },
            CellData { door_mask: 4, mark: 0 },
            CellData { door_mask: 0, mark: 0 },
        ]
    );
}

#[test]
fn open_door_from_outside_does_nothing() {
    let mut maze = build(2, 2);
    maze.open_door(at(0, -1), &Direction::Right);
    maze.open_door(at(-1, 1), &Direction::Down);
    maze.open_door(at(2, 0), &Direction::Up);
    maze.open_door(at(7, 7), &Direction::Left);
    assert_eq!(maze.cells, build(2, 2).cells);
}

#[test]
fn open_door_nowhere_does_nothing() {
    let mut maze = build(2, 2);
    maze.open_door(at(0, 0), &Direction::Nowhere);
    assert_eq!(maze.cells, build(2, 2).cells);
}

#[test]
fn close_door_closes_both_sides() {
    let mut maze = build(2, 2);
    maze.open_door(at(0, 0), &Direction::Right);
    maze.open_door(at(0, 0), &Direction::Down);
    maze.close_door(at(0, 1), &Direction::Left);
    assert!(!maze.can_go(at(0, 0), Direction::Right));
    assert!(!maze.can_go(at(0, 1), Direction::Left));
    assert!(maze.can_go(at(0, 0), Direction::Down));
    assert!(maze.can_go(at(1, 0), Direction::Up));
}

#[test]
fn close_door_on_the_rim_closes_the_opening() {
    let mut maze = build(1, 1);
    maze.open_door(at(0, 0), &Direction::Right);
    maze.open_door(at(0, 0), &Direction::Left);
    maze.close_door(at(0, 0), &Direction::Right);
    assert!(!maze.can_go(at(0, 0), Direction::Right));
    assert!(maze.can_go(at(0, 0), Direction::Left));
}

#[test]
fn close_door_from_outside_does_nothing() {
    let mut maze = build(2, 2);
    maze.open_door(at(0, 0), &Direction::Left);
    maze.open_door(at(0, 0), &Direction::Right);
    let before = maze.cells.clone();
    maze.close_door(at(0, -1), &Direction::Right);
    maze.close_door(at(0, 2), &Direction::Left);
    assert_eq!(maze.cells, before);
}

#[test]
fn close_door_that_is_closed_changes_nothing() {
    let mut maze = build(2, 2);
    maze.open_door(at(0, 0), &Direction::Right);
    let before = maze.cells.clone();
    maze.close_door(at(0, 0), &Direction::Down);
    assert_eq!(maze.cells, before);
}

#[test]
fn doors_stay_paired_through_any_toggling() {
    let mut maze = build(3, 3);
    let script = [
        (0, 0, Direction::Right, true),
        (1, 1, Direction::Up, true),
        (1, 1, Direction::Left, true),
        (0, 1, Direction::Down, false),
        (2, 2, Direction::Right, true),
        (2, 2, Direction::Up, true),
        (1, 2, Direction::Down, false),
        (1, 0, Direction::Right, false),
        (0, 0, Direction::Up, true),
    ];
    for (row, col, d, open) in script {
        if open {
            maze.open_door(at(row, col), &d);
        } else {
            maze.close_door(at(row, col), &d);
        }
        for r in 0..3 {
            for c in 0..3 {
                for e in ALL_DIRECTIONS {
                    let next = at(r, c).go(&e);
                    if next.is_in_maze(&maze) {
                        assert_eq!(
                            maze.can_go(at(r, c), e),
                            maze.can_go(next, *e.to_opposite())
                        );
                    }
                }
            }
        }
    }
}

#[test]
fn set_mark_then_get_mark() {
    let mut maze = build(2, 3);
    maze.set_mark(at(1, 2), 7);
    assert_eq!(maze.get_mark(at(1, 2)), 7);
    assert_eq!(maze.get_mark(at(1, 1)), 0);
    maze.set_mark(at(1, 2), 0);
    assert_eq!(maze.get_mark(at(1, 2)), 0);
}

#[test]
fn set_mark_keeps_the_doors() {
    let mut maze = build(2, 2);
    maze.open_door(at(0, 0), &Direction::Down);
    maze.set_mark(at(0, 0), 1);
    assert_eq!(maze.cells[0], CellData { door_mask: 2, mark: 1 });
    assert_eq!(maze.cells[2], CellData { door_mask: 1, mark: 0 });
}

#[test]
fn get_mark_outside_is_minus_one() {
    let maze = build(2, 2);
    assert_eq!(maze.get_mark(at(-1, 0)), -1);
    assert_eq!(maze.get_mark(at(0, 2)), -1);
    assert_eq!(maze.get_mark(at(2, 0)), -1);
    assert_eq!(maze.get_mark(at(0, -1)), -1);
}

#[test]
fn set_mark_outside_does_nothing() {
    let mut maze = build(2, 2);
    maze.set_mark(at(2, 2), 5);
    maze.set_mark(at(-1, 0), 5);
    assert_eq!(maze.cells, build(2, 2).cells);
}

#[test]
fn is_exit_needs_the_last_column_and_an_open_door() {
    let mut maze = build(2, 3);
    assert!(!at(1, 2).is_exit(&maze));
    maze.open_door(at(1, 2), &Direction::Right);
    assert!(at(1, 2).is_exit(&maze));
    assert!(!at(0, 2).is_exit(&maze));
    maze.open_door(at(1, 0), &Direction::Right);
    assert!(!at(1, 0).is_exit(&maze));
    assert!(!at(1, 3).is_exit(&maze));
}

#[test]
fn cell_pos_methods_act_on_the_maze() {
    let mut maze = build(2, 2);
    let pos = at(0, 1);
    pos.open_door(&mut maze, &Direction::Left);
    assert!(maze.can_go(at(0, 0), Direction::Right));
    assert!(maze.can_go(pos, Direction::Left));
    pos.close_door(&mut maze, &Direction::Left);
    assert!(!maze.can_go(at(0, 0), Direction::Right));
    assert!(!maze.can_go(pos, Direction::Left));
    pos.set_mark(&mut maze, 3);
    assert_eq!(pos.get_mark(&maze), 3);
    assert_eq!(maze.get_mark(pos), 3);
    assert_eq!(at(5, 5).get_mark(&maze), -1);
}
