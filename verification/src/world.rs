//! The world that the rockets fly in: a square grid of cells, some of them
//! obstacles, read from a map of characters.

use vstd::prelude::*;
use vstd::std_specs::iter::IteratorSpec;

verus! {

/// What a world is made of.
pub struct Layout {
    /// The obstacle cells, each as (row, column), in reading order.
    pub walls: Seq<(usize, usize)>,
    /// The number of rows and of columns of the grid.
    pub side: nat,
}

impl Layout {
    /// The cell in row `cell.0` and column `cell.1` is an obstacle.
    pub open spec fn has(self, cell: (usize, usize)) -> bool {
        self.walls.contains(cell)
    }

    /// A rocket at `point` is at a wall: the place lies outside the window,
    /// or in a cell that is an obstacle.
    pub open spec fn blocks(self, point: WindowPoint) -> bool {
        point.outside || self.has((point.cell.1, point.cell.0))
    }
}

/// The environment that the rockets are confined to.
pub struct World {
    walls: Vec<(usize, usize)>,
    grid_size: usize,
}

impl View for World {
    type V = Layout;

    closed spec fn view(&self) -> Layout {
        Layout { walls: self.walls@, side: self.grid_size as nat }
    }
}

/// What is known of a place in the window once its coordinates have been
/// weighed against the window's size and the size of a cell.
#[derive(Clone, Copy, Debug)]
pub struct WindowPoint {
    /// The place lies on the window's edge or beyond it.
    pub outside: bool,
    /// The column and the row of the cell that the place falls in.
    pub cell: (usize, usize),
}

/// Something that can tell where its walls are.
pub trait Wall<T> {
    /// A wall stands at `pos`.
    spec fn wall_at(&self, pos: T) -> bool;

    /// Whether a wall stands at `pos`.
    fn is_wall(&self, pos: T) -> (hit: bool)
        ensures
            hit == self.wall_at(pos),
    ;
}

/// The place of the first line feed in `text`, or the length of `text` if it
/// holds none.
pub open spec fn line_end(text: Seq<char>) -> int
    decreases text.len(),
{
    if text.len() == 0 || text[0] == '\n' {
        0
    } else {
        1 + line_end(text.drop_first())
    }
}

/// `line` without the carriage return at its end, if it has one.
pub open spec fn chomp(line: Seq<char>) -> Seq<char> {
    if line.len() > 0 && line.last() == '\r' {
        line.drop_last()
    } else {
        line
    }
}

/// The lines of `text`. A line ends at a line feed, or at a carriage return
/// followed by a line feed; neither belongs to it. What follows the last line
/// feed is a line if it is not empty.
pub open spec fn lines_of(text: Seq<char>) -> Seq<Seq<char>>
    decreases text.len(),
{
    if text.len() == 0 {
        Seq::empty()
    } else {
        let end = line_end(text);
        if 0 <= end < text.len() {
            seq![chomp(text.take(end))] + lines_of(text.skip(end + 1))
        } else {
            seq![text]
        }
    }
}

/// The obstacles among the first `columns` cells of `row`, which is row
/// number `i`: every cell but those marked `'1'`.
pub open spec fn row_obstacles(row: Seq<char>, i: nat, columns: nat) -> Seq<(usize, usize)>
    decreases columns,
{
    if columns == 0 {
        Seq::empty()
    } else {
        let j = (columns - 1) as nat;
        let before = row_obstacles(row, i, j);
        if row[j as int] != '1' {
            before.push((i as usize, j as usize))
        } else {
            before
        }
    }
}

/// The obstacles in the first `count` rows of `rows`, in reading order.
pub open spec fn obstacles(rows: Seq<Seq<char>>, count: nat) -> Seq<(usize, usize)>
    decreases count,
{
    if count == 0 {
        Seq::empty()
    } else {
        let i = (count - 1) as nat;
        obstacles(rows, i) + row_obstacles(rows[i as int], i, rows[i as int].len())
    }
}

/// The side of the grid that `rows` describe: the length of the first row.
pub open spec fn side_of(rows: Seq<Seq<char>>) -> nat {
    if rows.len() == 0 {
        0
    } else {
        rows[0].len()
    }
}

/// The world that the map `text` describes.
pub open spec fn layout_of(text: Seq<char>) -> Layout {
    let rows = lines_of(text);
    Layout { walls: obstacles(rows, rows.len()), side: side_of(rows) }
}

/// The line of a text that holds no line feed before `end`, and one at `end`
/// or nothing more, ends at `end`.
pub proof fn lemma_line_end(text: Seq<char>, end: int)
    requires
        0 <= end <= text.len(),
        forall|k: int| 0 <= k < end ==> text[k] != '\n',
        end < text.len() ==> text[end] == '\n',
    ensures
        line_end(text) == end,
    decreases text.len(),
{
    if end > 0 {
        lemma_line_end(text.drop_first(), end - 1);
    }
}

/// What a sequence holds once `last` was put at its end.
proof fn lemma_push_contains(cells: Seq<(usize, usize)>, last: (usize, usize), cell: (usize, usize))
    ensures
        cells.push(last).contains(cell) <==> cells.contains(cell) || cell == last,
{
    let longer = cells.push(last);
    if longer.contains(cell) {
        let k = choose|k: int| 0 <= k < longer.len() && longer[k] == cell;
        if k < cells.len() {
            assert(cells[k] == cell);
        }
    }
    if cells.contains(cell) {
        let k = choose|k: int| 0 <= k < cells.len() && cells[k] == cell;
        assert(longer[k] == cell);
    }
    if cell == last {
        assert(longer[cells.len() as int] == cell);
    }
}

/// What two sequences hold once they are joined.
proof fn lemma_add_contains(
    head: Seq<(usize, usize)>,
    tail: Seq<(usize, usize)>,
    cell: (usize, usize),
)
    ensures
        (head + tail).contains(cell) <==> head.contains(cell) || tail.contains(cell),
{
    let both = head + tail;
    if both.contains(cell) {
        let k = choose|k: int| 0 <= k < both.len() && both[k] == cell;
        if k < head.len() {
            assert(head[k] == cell);
        } else {
            assert(tail[k - head.len()] == cell);
        }
    }
    if head.contains(cell) {
        let k = choose|k: int| 0 <= k < head.len() && head[k] == cell;
        assert(both[k] == cell);
    }
    if tail.contains(cell) {
        let k = choose|k: int| 0 <= k < tail.len() && tail[k] == cell;
        assert(both[k + head.len()] == cell);
    }
}

/// The obstacles of a row are its cells that are not marked `'1'`.
pub proof fn lemma_row_obstacles(row: Seq<char>, i: nat, columns: nat, cell: (usize, usize))
    requires
        columns <= row.len(),
        i <= usize::MAX,
        columns <= usize::MAX + 1,
    ensures
        row_obstacles(row, i, columns).contains(cell) <==> cell.0 == i && cell.1 < columns
            && row[cell.1 as int] != '1',
    decreases columns,
{
    if columns > 0 {
        let j = (columns - 1) as nat;
        lemma_row_obstacles(row, i, j, cell);
        lemma_push_contains(row_obstacles(row, i, j), (i as usize, j as usize), cell);
    }
}

/// The obstacles of a map are the cells of its rows that are not marked
/// `'1'`: a cell in row `i` and column `j` is among them if and only if
/// the map has a row `i`, the row has a column `j`, and the mark there is
/// another one.
pub proof fn lemma_obstacles(rows: Seq<Seq<char>>, count: nat, cell: (usize, usize))
    requires
        count <= rows.len(),
        count <= usize::MAX + 1,
        forall|i: int| 0 <= i < count ==> (#[trigger] rows[i]).len() <= usize::MAX + 1,
    ensures
        obstacles(rows, count).contains(cell) <==> cell.0 < count && cell.1
            < rows[cell.0 as int].len() && rows[cell.0 as int][cell.1 as int] != '1',
    decreases count,
{
    if count > 0 {
        let i = (count - 1) as nat;
        lemma_obstacles(rows, i, cell);
        lemma_row_obstacles(rows[i as int], i, rows[i as int].len(), cell);
        lemma_add_contains(
            obstacles(rows, i),
            row_obstacles(rows[i as int], i, rows[i as int].len()),
            cell,
        );
    }
}

/// The characters of `text`, one by one.
fn chars_of(text: &str) -> (chars: Vec<char>)
    ensures
        chars@ == text@,
{
    broadcast use {vstd::string::axiom_spec_iter, vstd::string::next_postcondition};

    let mut rest = text.chars();
    let mut chars: Vec<char> = Vec::new();
    loop
        invariant
            chars@ + rest.remaining() == text@,
            rest.decrease() is Some,
        ensures
            chars@ == text@,
        decreases rest.decrease()->0,
    {
        let ghost before = rest;
        match rest.next() {
            Some(c) => {
                chars.push(c);
                assert(chars@ + rest.remaining() == chars@.drop_last() + before.remaining());
            },
            None => {
                assert(chars@ + rest.remaining() == chars@);
                break ;
            },
        }
    }
    chars
}

/// The lines of the map `text`, each as its characters.
pub fn map_rows(text: &str) -> (rows: Vec<Vec<char>>)
    ensures
        rows.deep_view() == lines_of(text@),
{
    let chars = chars_of(text);
    let mut rows: Vec<Vec<char>> = Vec::new();
    let mut line: Vec<char> = Vec::new();
    let mut start: usize = 0;
    let mut k: usize = 0;
    assert(text@.skip(0) == text@);
    assert(rows.deep_view() + lines_of(text@) == lines_of(text@));
    while k < chars.len()
        invariant
            start <= k <= chars.len(),
            chars@ == text@,
            line@ == text@.subrange(start as int, k as int),
            forall|j: int| start <= j < k ==> text@[j] != '\n',
            lines_of(text@) == rows.deep_view() + lines_of(text@.skip(start as int)),
        decreases chars.len() - k,
    {
        let c = chars[k];
        if c == '\n' {
            let ghost rest = text@.skip(start as int);
            proof {
                lemma_line_end(rest, k - start);
                assert(rest.take(k - start) == line@);
                assert(rest.skip(k - start + 1) == text@.skip(k + 1));
            }
            let ghost whole = line@;
            if line.len() > 0 && line[line.len() - 1] == '\r' {
                line.pop();
            }
            assert(line@ == chomp(whole));
            let ghost before = rows.deep_view();
            rows.push(line);
            assert(rows.deep_view() =~~= before + seq![chomp(whole)]);
            assert(before + (seq![chomp(whole)] + lines_of(text@.skip(k + 1))) == before + seq![
                chomp(whole),
            ] + lines_of(text@.skip(k + 1)));
            line = Vec::new();
            start = k + 1;
        } else {
            line.push(c);
        }
        k += 1;
    }
    if line.len() > 0 {
        let ghost rest = text@.skip(start as int);
        proof {
            lemma_line_end(rest, k - start);
            assert(rest == line@);
        }
        let ghost before = rows.deep_view();
        rows.push(line);
        assert(rows.deep_view() =~~= before + seq![rest]);
    } else {
        assert(text@.skip(start as int).len() == 0);
        assert(rows.deep_view() + Seq::<Seq<char>>::empty() == rows.deep_view());
    }
    rows
}

impl World {
    /// The side of the grid and the obstacle cells that `rows` describe.
    pub fn load_map_data(rows: &Vec<Vec<char>>) -> (data: (usize, Vec<(usize, usize)>))
        ensures
            data.0 == side_of(rows.deep_view()),
            data.1@ == obstacles(rows.deep_view(), rows.len() as nat),
    {
        let grid_size = if rows.len() == 0 {
            0
        } else {
            rows[0].len()
        };
        let mut grid: Vec<(usize, usize)> = Vec::new();
        let mut i: usize = 0;
        while i < rows.len()
            invariant
                i <= rows.len(),
                grid@ == obstacles(rows.deep_view(), i as nat),
            decreases rows.len() - i,
        {
            let row = &rows[i];
            let ghost before = grid@;
            let mut j: usize = 0;
            while j < row.len()
                invariant
                    j <= row.len(),
                    i < rows.len(),
                    row@ == rows.deep_view()[i as int],
                    grid@ == before + row_obstacles(row@, i as nat, j as nat),
                decreases row.len() - j,
            {
                if row[j] != '1' {
                    grid.push((i, j));
                }
                j += 1;
            }
            i += 1;
        }
        (grid_size, grid)
    }

    /// The world that the map `text` describes.
    pub fn new(text: &str) -> (world: World)
        ensures
            world@ == layout_of(text@),
    {
        let rows = map_rows(text);
        let (grid_size, walls) = World::load_map_data(&rows);
        World { walls, grid_size }
    }

    /// The number of rows and of columns of the grid.
    pub fn grid_size(&self) -> (side: usize)
        ensures
            side == self@.side,
    {
        self.grid_size
    }
}

impl Wall<(usize, usize)> for World {
    /// The cell in row `pos.0` and column `pos.1` is an obstacle.
    open spec fn wall_at(&self, pos: (usize, usize)) -> bool {
        self@.has(pos)
    }

    fn is_wall(&self, pos: (usize, usize)) -> (hit: bool) {
        let mut k: usize = 0;
        while k < self.walls.len()
            invariant
                k <= self.walls.len(),
                forall|j: int| 0 <= j < k ==> self.walls@[j] != pos,
            decreases self.walls.len() - k,
        {
            let cell = self.walls[k];
            if cell.0 == pos.0 && cell.1 == pos.1 {
                assert(self@.walls[k as int] == pos);
                assert(self.wall_at(pos) == self@.walls.contains(pos));
                return true;
            }
            k += 1;
        }
        assert(self.wall_at(pos) == self@.walls.contains(pos));
        false
    }
}

impl<'a> Wall<&'a WindowPoint> for World {
    /// The place lies outside the window, or in a cell that is an obstacle.
    open spec fn wall_at(&self, pos: &'a WindowPoint) -> bool {
        self@.blocks(*pos)
    }

    fn is_wall(&self, pos: &'a WindowPoint) -> (hit: bool) {
        if pos.outside {
            return true;
        }
        self.is_wall((pos.cell.1, pos.cell.0))
    }
}

} // verus!
