//! The renderer: turns a maze into lines of text, with the glyphs of a
//! character set at the junctions of its walls.

use crate::direction::Direction;
use crate::grid::{step, Grid};
use crate::maze::{CellPos, Maze};
use vstd::prelude::*;
use vstd::string::StringExecFns;

verus! {

/// `String::push` of the standard library. Trusted: it puts the character at
/// the end of the string and changes nothing else.
pub assume_specification[ String::push ](text: &mut String, c: char)
    ensures
        final(text)@ == old(text)@.push(c),
;

/// A set of sixteen junction glyphs. The index of a glyph tells which wall
/// stubs meet at the junction: 1 for the stub upward, 2 for the one to the
/// right, 4 for the one downward, 8 for the one to the left, added up.
pub trait MazeCharset {
    /// The glyph that the set draws for a junction index from 0 to 15.
    spec fn glyph(&self, index: int) -> char;

    /// The glyph for a junction index below 16.
    fn corner_char(&self, index: usize) -> (c: char)
        requires
            index < 16,
        ensures
            c == self.glyph(index as int),
    ;

    /// The fill of a closed wall above or below a cell: the glyph of a
    /// junction with stubs to the left and right, three times.
    fn horizontal_line(&self) -> (line: String)
        ensures
            line@ == seq![self.glyph(10), self.glyph(10), self.glyph(10)],
    ;
}

/// The box-drawing glyphs by junction index.
pub const UNICODE_CORNER_CHARS: [char; 16] = [
    ' ',
    '╹',
    '╺',
    '┗',
    '╻',
    '┃',
    '┏',
    '┣',
    '╸',
    '┛',
    '━',
    '┻',
    '┓',
    '┫',
    '┳',
    '╋',
];

/// The plain glyphs by junction index.
pub const ASCII_CORNER_CHARS: [char; 16] = [
    ' ',
    '+',
    '+',
    '+',
    '+',
    '|',
    '+',
    '+',
    '+',
    '+',
    '-',
    '+',
    '+',
    '+',
    '+',
    '+',
];

/// Box-drawing glyphs.
pub struct UnicodeCharSet;

impl MazeCharset for UnicodeCharSet {
    open spec fn glyph(&self, index: int) -> char {
        UNICODE_CORNER_CHARS[index]
    }

    fn corner_char(&self, index: usize) -> (c: char) {
        UNICODE_CORNER_CHARS[index]
    }

    fn horizontal_line(&self) -> (line: String) {
        let dash = self.corner_char(10);
        let mut line = String::new();
        line.push(dash);
        line.push(dash);
        line.push(dash);
        proof {
            assert(line@ =~= seq![self.glyph(10), self.glyph(10), self.glyph(10)]);
        }
        line
    }
}

/// Glyphs made of space, `+`, `|` and `-` alone.
pub struct AsciiCharSet;

impl MazeCharset for AsciiCharSet {
    open spec fn glyph(&self, index: int) -> char {
        ASCII_CORNER_CHARS[index]
    }

    fn corner_char(&self, index: usize) -> (c: char) {
        ASCII_CORNER_CHARS[index]
    }

    fn horizontal_line(&self) -> (line: String) {
        let dash = self.corner_char(10);
        let mut line = String::new();
        line.push(dash);
        line.push(dash);
        line.push(dash);
        proof {
            assert(line@ =~= seq![self.glyph(10), self.glyph(10), self.glyph(10)]);
        }
        line
    }
}

/// The index of the junction at which the given wall stubs meet.
pub open spec fn junction_index(up: bool, right: bool, down: bool, left: bool) -> int {
    (if up {
        1int
    } else {
        0int
    }) + (if right {
        2int
    } else {
        0int
    }) + (if down {
        4int
    } else {
        0int
    }) + (if left {
        8int
    } else {
        0int
    })
}

/// The junction at the top-left corner of cell `p`. A stub runs to the right
/// unless `p` is open upward, and downward unless `p` is open to the left.
/// A stub runs upward unless `p` is open upward and the cell above it is
/// open to the left; none does on the top edge. A stub runs to the left
/// unless `p` is open to the left and the cell left of it is open upward;
/// none does on the left edge.
pub open spec fn corner_index(g: Grid, p: (int, int)) -> int {
    junction_index(
        p.0 != 0 && !(g.door(p, Direction::Up) && g.door(step(p, Direction::Up), Direction::Left)),
        !g.door(p, Direction::Up),
        !g.door(p, Direction::Left),
        p.1 != 0 && !(g.door(p, Direction::Left) && g.door(
            step(p, Direction::Left),
            Direction::Up,
        )),
    )
}

/// The junction at the top-right corner of the last cell of `row`. A stub
/// runs to the left unless that cell is open upward, and downward unless it
/// is open to the right. A stub runs upward unless the cell is open upward
/// and the cell above it is open to the right; none does on the top edge.
pub open spec fn separator_end_index(g: Grid, row: int) -> int {
    let last = (row, g.columns - 1);
    junction_index(
        row != 0 && !(g.door(last, Direction::Up) && g.door(
            step(last, Direction::Up),
            Direction::Right,
        )),
        false,
        !g.door(last, Direction::Right),
        !g.door(last, Direction::Up),
    )
}

/// The junction at the bottom-left corner of the cell of the last row in
/// column `col`: a stub to the right, one to the left but on the left edge,
/// and one upward unless that cell is open to the left.
pub open spec fn bottom_index(g: Grid, col: int) -> int {
    junction_index(!g.door((g.rows - 1, col), Direction::Left), true, false, col != 0)
}

/// The junction at the bottom-right corner of the maze: a stub to the left,
/// and one upward unless the last cell is open to the right.
pub open spec fn bottom_right_index(g: Grid) -> int {
    junction_index(!g.door((g.rows - 1, g.columns - 1), Direction::Right), false, false, true)
}

/// The character at place `k` of the line above `row`. Each cell takes four
/// places, the junction at its top-left corner and three of wall or gap; the
/// junction at the right end closes the line.
pub open spec fn separator_char<C: MazeCharset>(set: &C, g: Grid, row: int, k: int) -> char {
    if k == 4 * g.columns {
        set.glyph(separator_end_index(g, row))
    } else if k % 4 == 0 {
        set.glyph(corner_index(g, (row, k / 4)))
    } else if g.door((row, k / 4), Direction::Up) {
        ' '
    } else {
        set.glyph(10)
    }
}

/// The line of junctions and walls above `row`.
pub open spec fn separator_line<C: MazeCharset>(set: &C, g: Grid, row: int) -> Seq<char> {
    Seq::new((4 * g.columns + 1) as nat, |k: int| separator_char(set, g, row, k))
}

/// The character at place `k` of the line that shows the cells of `row`:
/// for each cell the wall on its left or a gap, then three blanks; the
/// right border closes the line.
pub open spec fn row_char<C: MazeCharset>(set: &C, g: Grid, row: int, k: int) -> char {
    if k == 4 * g.columns {
        set.glyph(5)
    } else if k % 4 == 0 && !g.door((row, k / 4), Direction::Left) {
        set.glyph(5)
    } else {
        ' '
    }
}

/// The line that shows the cells of `row`.
pub open spec fn row_line<C: MazeCharset>(set: &C, g: Grid, row: int) -> Seq<char> {
    Seq::new((4 * g.columns + 1) as nat, |k: int| row_char(set, g, row, k))
}

/// The character at place `k` of the bottom border.
pub open spec fn bottom_char<C: MazeCharset>(set: &C, g: Grid, k: int) -> char {
    if k == 4 * g.columns {
        set.glyph(bottom_right_index(g))
    } else if k % 4 == 0 {
        set.glyph(bottom_index(g, k / 4))
    } else {
        set.glyph(10)
    }
}

/// The bottom border.
pub open spec fn bottom_line<C: MazeCharset>(set: &C, g: Grid) -> Seq<char> {
    Seq::new((4 * g.columns + 1) as nat, |k: int| bottom_char(set, g, k))
}

/// The picture of a maze: for each row the line above it and the line of
/// its cells, then the bottom border.
pub open spec fn picture<C: MazeCharset>(set: &C, g: Grid) -> Seq<Seq<char>> {
    Seq::new(
        (2 * g.rows + 1) as nat,
        |i: int|
            if i == 2 * g.rows {
                bottom_line(set, g)
            } else if i % 2 == 0 {
                separator_line(set, g, i / 2)
            } else {
                row_line(set, g, i / 2)
            },
    )
}

/// Whether `lines` hold the picture of the grid `g` in the glyphs of `set`.
pub open spec fn shows<C: MazeCharset>(lines: Seq<String>, set: &C, g: Grid) -> bool {
    &&& lines.len() == 2 * g.rows + 1
    &&& forall|i: int| 0 <= i < lines.len() ==> (#[trigger] lines[i])@ == picture(set, g)[i]
}

/// Rendering is deterministic: two renderings of the same maze in the same
/// glyphs have the same lines, character for character.
pub proof fn lemma_print_deterministic<C: MazeCharset>(
    first: Seq<String>,
    second: Seq<String>,
    set: &C,
    g: Grid,
)
    requires
        shows(first, set, g),
        shows(second, set, g),
    ensures
        first.len() == second.len(),
        forall|i: int| 0 <= i < first.len() ==> (#[trigger] first[i])@ == second[i]@,
{
}

/// The index of the glyph for the junction at the top-left corner of the
/// cell at `pos`.
pub fn corner_char_index(maze: &Maze, pos: CellPos) -> (index: usize)
    requires
        maze.wf(),
    ensures
        index == corner_index(maze@, pos@),
        index < 16,
{
    let up = maze.can_go(pos, Direction::Up);
    let left = maze.can_go(pos, Direction::Left);
    let mut index: usize = 0;
    if pos.row != 0 && !(up && maze.can_go(pos.go(&Direction::Up), Direction::Left)) {
        index += 1;
    }
    if !up {
        index += 2;
    }
    if !left {
        index += 4;
    }
    if pos.col != 0 && !(left && maze.can_go(pos.go(&Direction::Left), Direction::Up)) {
        index += 8;
    }
    index
}

/// The index of the glyph that ends the line above `row`.
pub fn row_separator_end_char_index(maze: &Maze, row: i32) -> (index: usize)
    requires
        maze.wf(),
    ensures
        index == separator_end_index(maze@, row as int),
        index < 16,
{
    let last_cell_pos = CellPos { row, col: (maze.columns as i32) - 1 };
    let up = maze.can_go(last_cell_pos, Direction::Up);
    let mut index: usize = 0;
    if row != 0 && !(up && maze.can_go(last_cell_pos.go(&Direction::Up), Direction::Right)) {
        index += 1;
    }
    if !maze.can_go(last_cell_pos, Direction::Right) {
        index += 4;
    }
    if !up {
        index += 8;
    }
    index
}

/// The index of the glyph that ends the bottom border.
pub fn bottom_right_char_index(maze: &Maze) -> (index: usize)
    requires
        maze.wf(),
    ensures
        index == bottom_right_index(maze@),
        index < 16,
{
    let bottom_right_pos = CellPos { row: maze.rows as i32 - 1, col: maze.columns as i32 - 1 };
    if maze.can_go(bottom_right_pos, Direction::Right) {
        8
    } else {
        9
    }
}

/// Renders mazes with the glyphs of one character set.
pub struct MazePrinter<'a, C: MazeCharset> {
    pub char_set: &'a C,
}

impl<'a, C: MazeCharset> MazePrinter<'a, C> {
    /// A printer that draws with the glyphs of `char_set`.
    pub fn new(char_set: &'a C) -> (printer: Self)
        ensures
            printer.char_set == char_set,
    {
        Self { char_set }
    }

    /// The picture of the maze, line by line from the top: two lines for
    /// each row and the bottom border.
    pub fn print(&self, maze: &Maze) -> (lines: Vec<String>)
        requires
            maze.wf(),
        ensures
            shows(lines@, self.char_set, maze@),
    {
        let mut lines: Vec<String> = Vec::new();
        let rows = maze.rows as i32;
        let mut row: i32 = 0;
        while row < rows
            invariant
                maze.wf(),
                rows == maze.rows,
                0 <= row <= rows,
                lines@.len() == 2 * row,
                forall|i: int|
                    0 <= i < lines@.len() ==> (#[trigger] lines@[i])@ == picture(
                        self.char_set,
                        maze@,
                    )[i],
            decreases rows - row,
        {
            lines.push(self.print_row_separator(maze, row));
            lines.push(self.print_row(maze, row));
            row += 1;
        }
        lines.push(self.print_maze_bottom(maze));
        lines
    }

    /// The line above `row`.
    pub fn print_row_separator(&self, maze: &Maze, row: i32) -> (line: String)
        requires
            maze.wf(),
        ensures
            line@ == separator_line(self.char_set, maze@, row as int),
    {
        let ghost whole = separator_line(self.char_set, maze@, row as int);
        let mut line = String::new();
        let columns = maze.columns as i32;
        let mut col: i32 = 0;
        while col < columns
            invariant
                maze.wf(),
                columns == maze.columns,
                0 <= col <= columns,
                whole == separator_line(self.char_set, maze@, row as int),
                line@ == whole.take(4 * col),
            decreases columns - col,
        {
            let pos = CellPos { row, col };
            let ghost so_far = line@;
            line.push(self.corner_char(maze, pos));
            if maze.can_go(pos, Direction::Up) {
                proof {
                    reveal_strlit("   ");
                }
                line.append("   ");
            } else {
                let fill = self.char_set.horizontal_line();
                line.append(fill.as_str());
            }
            proof {
                assert(line@.len() == so_far.len() + 4);
                assert(line@ =~= whole.take(4 * (col + 1)));
            }
            col += 1;
        }
        line.push(self.row_separator_end_char(maze, row));
        proof {
            assert(line@ =~= whole);
        }
        line
    }

    /// The line that shows the cells of `row`.
    pub fn print_row(&self, maze: &Maze, row: i32) -> (line: String)
        requires
            maze.wf(),
        ensures
            line@ == row_line(self.char_set, maze@, row as int),
    {
        let ghost whole = row_line(self.char_set, maze@, row as int);
        let mut line = String::new();
        let columns = maze.columns as i32;
        let mut col: i32 = 0;
        while col < columns
            invariant
                maze.wf(),
                columns == maze.columns,
                0 <= col <= columns,
                whole == row_line(self.char_set, maze@, row as int),
                line@ == whole.take(4 * col),
            decreases columns - col,
        {
            let pos = CellPos { row, col };
            let ghost so_far = line@;
            if maze.can_go(pos, Direction::Left) {
                line.push(' ');
            } else {
                line.push(self.char_set.corner_char(5));
            }
            let contents = self.cell_contents(maze, pos);
            line.append(contents.as_str());
            proof {
                assert(line@.len() == so_far.len() + 4);
                assert(line@ =~= whole.take(4 * (col + 1)));
            }
            col += 1;
        }
        line.push(self.char_set.corner_char(5));
        proof {
            assert(line@ =~= whole);
        }
        line
    }

    /// What is shown inside a cell: three blanks.
    pub fn cell_contents(&self, _maze: &Maze, _pos: CellPos) -> (contents: String)
        ensures
            contents@ == seq![' ', ' ', ' '],
    {
        proof {
            reveal_strlit("   ");
        }
        let contents = String::from_str("   ");
        proof {
            assert(contents@ =~= seq![' ', ' ', ' ']);
        }
        contents
    }

    /// The bottom border.
    pub fn print_maze_bottom(&self, maze: &Maze) -> (line: String)
        requires
            maze.wf(),
        ensures
            line@ == bottom_line(self.char_set, maze@),
    {
        let ghost whole = bottom_line(self.char_set, maze@);
        let mut line = String::new();
        let columns = maze.columns as i32;
        let mut col: i32 = 0;
        while col < columns
            invariant
                maze.wf(),
                columns == maze.columns,
                0 <= col <= columns,
                whole == bottom_line(self.char_set, maze@),
                line@ == whole.take(4 * col),
            decreases columns - col,
        {
            let ghost so_far = line@;
            self.print_bottom_separator(maze, col, &mut line);
            proof {
                assert(line@ =~= whole.take(4 * (col + 1)));
            }
            col += 1;
        }
        line.push(self.bottom_right_char(maze));
        proof {
            assert(line@ =~= whole);
        }
        line
    }

    /// Appends to `line` the part of the bottom border below column `col`:
    /// the junction at its left end and the wall.
    pub fn print_bottom_separator(&self, maze: &Maze, col: i32, line: &mut String)
        requires
            maze.wf(),
        ensures
            final(line)@ == old(line)@ + seq![
                self.char_set.glyph(bottom_index(maze@, col as int)),
                self.char_set.glyph(10),
                self.char_set.glyph(10),
                self.char_set.glyph(10),
            ],
    {
        let pos = CellPos { row: maze.rows as i32 - 1, col };
        let mut index: usize = 2;
        if !maze.can_go(pos, Direction::Left) {
            index += 1;
        }
        if col != 0 {
            index += 8;
        }
        line.push(self.char_set.corner_char(index));
        let fill = self.char_set.horizontal_line();
        line.append(fill.as_str());
        proof {
            assert(line@ =~= old(line)@ + seq![
                self.char_set.glyph(bottom_index(maze@, col as int)),
                self.char_set.glyph(10),
                self.char_set.glyph(10),
                self.char_set.glyph(10),
            ]);
        }
    }

    /// The glyph for the junction at the top-left corner of the cell at
    /// `pos`.
    pub fn corner_char(&self, maze: &Maze, pos: CellPos) -> (c: char)
        requires
            maze.wf(),
        ensures
            c == self.char_set.glyph(corner_index(maze@, pos@)),
    {
        self.char_set.corner_char(corner_char_index(maze, pos))
    }

    /// The glyph that ends the line above `row`.
    pub fn row_separator_end_char(&self, maze: &Maze, row: i32) -> (c: char)
        requires
            maze.wf(),
        ensures
            c == self.char_set.glyph(separator_end_index(maze@, row as int)),
    {
        self.char_set.corner_char(row_separator_end_char_index(maze, row))
    }

    /// The glyph that ends the bottom border.
    pub fn bottom_right_char(&self, maze: &Maze) -> (c: char)
        requires
            maze.wf(),
        ensures
            c == self.char_set.glyph(bottom_right_index(maze@)),
    {
        self.char_set.corner_char(bottom_right_char_index(maze))
    }
}

} // verus!
