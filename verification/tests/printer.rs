use mazey::direction::{Direction, ALL_DIRECTIONS};
use mazey::maker::make_maze;
use mazey::maze::{CellPos, Maze};
use mazey::printer::{
    bottom_right_char_index, corner_char_index, row_separator_end_char_index, AsciiCharSet,
    MazeCharset, MazePrinter, UnicodeCharSet, ASCII_CORNER_CHARS, UNICODE_CORNER_CHARS,
};
use rand::rngs::StdRng;
use rand::SeedableRng;

fn at(row: i32, col: i32) -> CellPos {
    CellPos { row, col }
}

fn build(rows: usize, columns: usize) -> Maze {
    match Maze::new(rows, columns) {
        Ok(maze) => maze,
        Err(error) => panic!("no maze of {} by {}: {:?}", rows, columns, error),
    }
}

fn all_open(rows: usize, columns: usize) -> Maze {
    let mut maze = build(rows, columns);
    for row in 0..rows as i32 {
        for col in 0..columns as i32 {
            for d in ALL_DIRECTIONS {
                maze.open_door(at(row, col), &d);
            }
        }
    }
    maze
}

/// A three by three maze whose passages wind from the top-left cell to the
/// bottom-right one, with the entrance and the exit at the two ends.
fn snake() -> Maze {
    let mut maze = build(3, 3);
    maze.open_door(at(0, 0), &Direction::Left);
    maze.open_door(at(0, 0), &Direction::Right);
    maze.open_door(at(0, 1), &Direction::Right);
    maze.open_door(at(0, 2), &Direction::Down);
    maze.open_door(at(1, 2), &Direction::Left);
    maze.open_door(at(1, 1), &Direction::Left);
    maze.open_door(at(1, 0), &Direction::Down);
    maze.open_door(at(2, 0), &Direction::Right);
    maze.open_door(at(2, 1), &Direction::Right);
    maze.open_door(at(2, 2), &Direction::Right);
    maze
}

/// A two by three maze with a junction of three passages in its middle.
fn tee() -> Maze {
    let mut maze = build(2, 3);
    maze.open_door(at(0, 0), &Direction::Right);
    maze.open_door(at(0, 1), &Direction::Right);
    maze.open_door(at(0, 1), &Direction::Down);
    maze.open_door(at(1, 1), &Direction::Left);
    maze.open_door(at(1, 1), &Direction::Right);
    maze.open_door(at(1, 0), &Direction::Left);
    maze.open_door(at(0, 2), &Direction::Right);
    maze
}

fn ascii(maze: &Maze) -> Vec<String> {
    MazePrinter::new(&AsciiCharSet).print(maze)
}

fn unicode(maze: &Maze) -> Vec<String> {
    MazePrinter::new(&UnicodeCharSet).print(maze)
}

#[test]
fn ascii_glyphs_by_index() {
    let expected = " ++++|++++-+++++";
    for (index, glyph) in expected.chars().enumerate() {
        assert_eq!(AsciiCharSet.corner_char(index), glyph);
        assert_eq!(ASCII_CORNER_CHARS[index], glyph);
    }
}

#[test]
fn unicode_glyphs_by_index() {
    let expected = " ╹╺┗╻┃┏┣╸┛━┻┓┫┳╋";
    assert_eq!(expected.chars().count(), 16);
    for (index, glyph) in expected.chars().enumerate() {
        assert_eq!(UnicodeCharSet.corner_char(index), glyph);
        assert_eq!(UNICODE_CORNER_CHARS[index], glyph);
    }
}

#[test]
fn blank_glyph_is_a_space_in_both_sets() {
    assert_eq!(AsciiCharSet.corner_char(0), ' ');
    assert_eq!(UnicodeCharSet.corner_char(0), ' ');
}

#[test]
fn ascii_uses_four_characters_only() {
    for index in 0..16 {
        assert!(" +|-".contains(AsciiCharSet.corner_char(index)));
    }
}

#[test]
fn horizontal_line_is_glyph_ten_three_times() {
    assert_eq!(AsciiCharSet.horizontal_line(), "---");
    assert_eq!(UnicodeCharSet.horizontal_line(), "━━━");
}

#[test]
fn corner_index_of_all_open_two_by_two_is_zero() {
    let maze = all_open(2, 2);
    assert_eq!(corner_char_index(&maze, at(0, 0)), 0);
    assert_eq!(AsciiCharSet.corner_char(corner_char_index(&maze, at(0, 0))), ' ');
    assert_eq!(UnicodeCharSet.corner_char(corner_char_index(&maze, at(0, 0))), ' ');
}

#[test]
fn corner_indices_of_all_open_two_by_two() {
    let maze = all_open(2, 2);
    assert_eq!(corner_char_index(&maze, at(0, 1)), 0);
    assert_eq!(corner_char_index(&maze, at(1, 0)), 0);
    assert_eq!(corner_char_index(&maze, at(1, 1)), 0);
    assert_eq!(row_separator_end_char_index(&maze, 0), 0);
    assert_eq!(row_separator_end_char_index(&maze, 1), 0);
    assert_eq!(bottom_right_char_index(&maze), 8);
}

#[test]
fn corner_indices_of_a_closed_two_by_two() {
    let maze = build(2, 2);
    assert_eq!(corner_char_index(&maze, at(0, 0)), 6);
    assert_eq!(corner_char_index(&maze, at(0, 1)), 14);
    assert_eq!(corner_char_index(&maze, at(1, 0)), 7);
    assert_eq!(corner_char_index(&maze, at(1, 1)), 15);
    assert_eq!(row_separator_end_char_index(&maze, 0), 12);
    assert_eq!(row_separator_end_char_index(&maze, 1), 13);
    assert_eq!(bottom_right_char_index(&maze), 9);
}

#[test]
fn corner_index_drops_the_stub_up_only_with_both_passages() {
    let mut maze = build(2, 2);
    maze.open_door(at(0, 1), &Direction::Left);
    // The cell above is open to the left, the cell itself is closed upward.
    assert_eq!(corner_char_index(&maze, at(1, 1)), 15);
    maze.open_door(at(1, 1), &Direction::Up);
    assert_eq!(corner_char_index(&maze, at(1, 1)), 12);
    maze.close_door(at(0, 1), &Direction::Left);
    assert_eq!(corner_char_index(&maze, at(1, 1)), 13);
}

#[test]
fn corner_index_drops_the_stub_left_only_with_both_passages() {
    let mut maze = build(2, 2);
    maze.open_door(at(1, 0), &Direction::Up);
    // The cell to the left is open upward, the cell itself is closed to the left.
    assert_eq!(corner_char_index(&maze, at(1, 1)), 15);
    maze.open_door(at(1, 1), &Direction::Left);
    assert_eq!(corner_char_index(&maze, at(1, 1)), 3);
    maze.close_door(at(1, 0), &Direction::Up);
    assert_eq!(corner_char_index(&maze, at(1, 1)), 11);
}

#[test]
fn corner_indices_of_the_snake() {
    let maze = snake();
    let expected = [[2, 10, 10], [7, 11, 8], [5, 3, 11]];
    for row in 0..3 {
        for col in 0..3 {
            assert_eq!(
                corner_char_index(&maze, at(row as i32, col as i32)),
                expected[row][col]
            );
        }
    }
    assert_eq!(row_separator_end_char_index(&maze, 0), 12);
    assert_eq!(row_separator_end_char_index(&maze, 1), 5);
    assert_eq!(row_separator_end_char_index(&maze, 2), 9);
    assert_eq!(bottom_right_char_index(&maze), 8);
}

#[test]
fn row_end_index_follows_the_last_cell() {
    let mut maze = build(2, 2);
    maze.open_door(at(1, 1), &Direction::Right);
    assert_eq!(row_separator_end_char_index(&maze, 1), 9);
    maze.open_door(at(1, 1), &Direction::Up);
    assert_eq!(row_separator_end_char_index(&maze, 1), 1);
    maze.open_door(at(0, 1), &Direction::Right);
    assert_eq!(row_separator_end_char_index(&maze, 1), 0);
    assert_eq!(row_separator_end_char_index(&maze, 0), 8);
}

#[test]
fn closed_two_by_two_in_ascii() {
    assert_eq!(
        ascii(&build(2, 2)),
        vec!["+---+---+", "|   |   |", "+---+---+", "|   |   |", "+---+---+"]
    );
}

#[test]
fn closed_two_by_two_in_unicode() {
    assert_eq!(
        unicode(&build(2, 2)),
        vec!["┏━━━┳━━━┓", "┃   ┃   ┃", "┣━━━╋━━━┫", "┃   ┃   ┃", "┗━━━┻━━━┛"]
    );
}

#[test]
fn all_open_two_by_two_in_ascii() {
    assert_eq!(
        ascii(&all_open(2, 2)),
        vec!["         ", "        |", "         ", "        |", "+-------+"]
    );
}

#[test]
fn all_open_two_by_two_in_unicode() {
    assert_eq!(
        unicode(&all_open(2, 2)),
        vec!["         ", "        ┃", "         ", "        ┃", "╺━━━━━━━╸"]
    );
}

#[test]
fn one_by_one_with_entrance_and_exit_in_ascii() {
    let mut maze = build(1, 1);
    maze.open_door(at(0, 0), &Direction::Left);
    maze.open_door(at(0, 0), &Direction::Right);
    assert_eq!(ascii(&maze), vec!["+---+", "    |", "+---+"]);
}

#[test]
fn one_by_one_with_entrance_and_exit_in_unicode() {
    let mut maze = build(1, 1);
    maze.open_door(at(0, 0), &Direction::Left);
    maze.open_door(at(0, 0), &Direction::Right);
    assert_eq!(unicode(&maze), vec!["╺━━━╸", "    ┃", "╺━━━╸"]);
}

#[test]
fn generated_one_by_one_renders_as_three_lines() {
    let mut maze = build(1, 1);
    let mut rng = StdRng::seed_from_u64(4);
    make_maze(&mut maze, &mut rng);
    assert_eq!(ascii(&maze), vec!["+---+", "    |", "+---+"]);
    assert_eq!(unicode(&maze), vec!["╺━━━╸", "    ┃", "╺━━━╸"]);
}

#[test]
fn closed_one_by_one_in_both_sets() {
    assert_eq!(ascii(&build(1, 1)), vec!["+---+", "|   |", "+---+"]);
    assert_eq!(unicode(&build(1, 1)), vec!["┏━━━┓", "┃   ┃", "┗━━━┛"]);
}

#[test]
fn snake_in_ascii() {
    assert_eq!(
        ascii(&snake()),
        vec![
            "+-----------+",
            "            |",
            "+---+---+   |",
            "|           |",
            "|   +---+---+",
            "|           |",
            "+-----------+",
        ]
    );
}

#[test]
fn snake_in_unicode() {
    assert_eq!(
        unicode(&snake()),
        vec![
            "╺━━━━━━━━━━━┓",
            "            ┃",
            "┣━━━┻━━━╸   ┃",
            "┃           ┃",
            "┃   ┗━━━┻━━━┛",
            "┃           ┃",
            "┗━━━━━━━━━━━╸",
        ]
    );
}

#[test]
fn tee_in_ascii() {
    assert_eq!(
        ascii(&tee()),
        vec![
            "+-----------+",
            "|           |",
            "+---+   +---+",
            "            |",
            "+-----------+",
        ]
    );
}

#[test]
fn tee_in_unicode() {
    assert_eq!(
        unicode(&tee()),
        vec![
            "┏━━━━━━━━━━━╸",
            "┃           ┃",
            "┗━━━╸   ┗━━━┫",
            "            ┃",
            "╺━━━━━━━━━━━┛",
        ]
    );
}

#[test]
fn picture_has_two_lines_for_each_row_and_one_more() {
    for (rows, columns) in [(1, 1), (2, 5), (7, 3), (30, 20)] {
        let mut maze = build(rows, columns);
        let mut rng = StdRng::seed_from_u64(13);
        make_maze(&mut maze, &mut rng);
        let lines = unicode(&maze);
        assert_eq!(lines.len(), 2 * rows + 1);
        for line in lines {
            assert_eq!(line.chars().count(), 4 * columns + 1);
        }
    }
}

#[test]
fn rendering_twice_gives_the_same_text() {
    let mut maze = build(9, 14);
    let mut rng = StdRng::seed_from_u64(21);
    make_maze(&mut maze, &mut rng);
    assert_eq!(ascii(&maze), ascii(&maze));
    assert_eq!(unicode(&maze), unicode(&maze));
    let printer = MazePrinter::new(&UnicodeCharSet);
    let first = printer.print(&maze).join("\n").into_bytes();
    let second = printer.print(&maze).join("\n").into_bytes();
    assert_eq!(first, second);
}

#[test]
fn rendering_does_not_change_the_maze() {
    let maze = snake();
    let before = maze.cells.clone();
    let _ = ascii(&maze);
    assert_eq!(maze.cells, before);
}

#[test]
fn lines_of_the_picture_one_by_one() {
    let maze = tee();
    let printer = MazePrinter::new(&AsciiCharSet);
    assert_eq!(printer.print_row_separator(&maze, 0), "+-----------+");
    assert_eq!(printer.print_row(&maze, 0), "|           |");
    assert_eq!(printer.print_row_separator(&maze, 1), "+---+   +---+");
    assert_eq!(printer.print_row(&maze, 1), "            |");
    assert_eq!(printer.print_maze_bottom(&maze), "+-----------+");
    assert_eq!(printer.cell_contents(&maze, at(0, 0)), "   ");
}

#[test]
fn bottom_separator_appends_a_junction_and_a_wall() {
    let maze = tee();
    let printer = MazePrinter::new(&UnicodeCharSet);
    let mut line = String::from("ab");
    printer.print_bottom_separator(&maze, 0, &mut line);
    assert_eq!(line, "ab╺━━━");
    printer.print_bottom_separator(&maze, 1, &mut line);
    assert_eq!(line, "ab╺━━━━━━━");
    printer.print_bottom_separator(&maze, 2, &mut line);
    assert_eq!(line, "ab╺━━━━━━━━━━━");
}

#[test]
fn junction_glyphs_of_the_printer() {
    let maze = snake();
    let printer = MazePrinter::new(&UnicodeCharSet);
    assert_eq!(printer.corner_char(&maze, at(1, 0)), '┣');
    assert_eq!(printer.corner_char(&maze, at(2, 1)), '┗');
    assert_eq!(printer.row_separator_end_char(&maze, 1), '┃');
    assert_eq!(printer.bottom_right_char(&maze), '╸');
}
