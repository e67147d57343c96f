//! The screen data model: cells, colors, and immutable snapshots of full
//! terminal state.

use vstd::prelude::*;

verus! {

/// Largest width or height, in character cells, that a terminal grid may
/// have.  Guards against pathological allocation from malformed or
/// adversarial input.
pub const MAX_DIM: usize = 4096;

/// A color a cell can be drawn with.  `Base` is the terminal's default
/// foreground or background.
#[derive(Clone, Copy, Debug, PartialEq, Eq, Structural)]
pub enum Color {
    Base,
    Black,
    Red,
    Green,
    Yellow,
    Blue,
    Magenta,
    Cyan,
    White,
}

/// One character cell of the grid: a printable ASCII character together
/// with its attributes.
#[derive(Clone, Copy, Debug, PartialEq, Eq, Structural)]
pub struct Cell {
    pub ch: char,
    pub fg: Color,
    pub bg: Color,
    pub bold: bool,
}

/// A cell holds a printable ASCII character (space through tilde); the
/// parser writes nothing else into the grid, and the on-disk form stores
/// each character in one byte.
pub open spec fn cell_ok(c: Cell) -> bool {
    0x20 <= c.ch as u32 <= 0x7e
}

/// The cell a fresh or cleared grid position holds.
pub open spec fn spec_blank_cell() -> Cell {
    Cell { ch: ' ', fg: Color::Base, bg: Color::Base, bold: false }
}

impl Cell {
    /// A blank cell: a space with default attributes.
    pub fn blank() -> (c: Cell)
        ensures
            c == spec_blank_cell(),
    {
        Cell { ch: ' ', fg: Color::Base, bg: Color::Base, bold: false }
    }
}

/// A grid of `height` rows of `width` well-formed cells.
pub open spec fn grid_wf(g: Seq<Seq<Cell>>, width: int, height: int) -> bool {
    &&& g.len() == height
    &&& forall|r: int| 0 <= r < height ==> (#[trigger] g[r]).len() == width
    &&& forall|r: int, c: int|
        0 <= r < height && 0 <= c < width ==> cell_ok(#[trigger] g[r][c])
}

/// A fully blank grid of the given dimensions.
pub open spec fn blank_grid(width: int, height: int) -> Seq<Seq<Cell>> {
    Seq::new(height as nat, |r: int| Seq::new(width as nat, |c: int| spec_blank_cell()))
}

/// Both dimensions nonzero and within the implementation ceiling.
pub open spec fn dims_ok(width: int, height: int) -> bool {
    &&& 1 <= width <= MAX_DIM
    &&& 1 <= height <= MAX_DIM
}

pub proof fn lemma_blank_grid_wf(width: int, height: int)
    requires
        dims_ok(width, height),
    ensures
        grid_wf(blank_grid(width, height), width, height),
{
}

/// The mathematical value of a [`Snapshot`].
#[verifier::ext_equal]
pub ghost struct SnapshotView {
    pub grid: Seq<Seq<Cell>>,
    pub cursor_row: int,
    pub cursor_col: int,
    pub cursor_visible: bool,
    pub width: int,
    pub height: int,
}

impl SnapshotView {
    /// Internal consistency: the declared dimensions are valid, the grid
    /// really has those dimensions, and the cursor lies within them.
    pub open spec fn consistent(self) -> bool {
        &&& dims_ok(self.width, self.height)
        &&& grid_wf(self.grid, self.width, self.height)
        &&& 0 <= self.cursor_row < self.height
        &&& 0 <= self.cursor_col < self.width
    }
}

/// An immutable capture of full terminal state at one point in time: grid
/// contents, cursor, and window size.
///
/// A snapshot is plain data; whether its declared dimensions agree with its
/// grid is checked where it is consumed, not assumed.
#[derive(Clone, Debug, PartialEq)]
pub struct Snapshot {
    pub grid: Vec<Vec<Cell>>,
    pub cursor_row: usize,
    pub cursor_col: usize,
    pub cursor_visible: bool,
    pub width: usize,
    pub height: usize,
}

impl View for Snapshot {
    type V = SnapshotView;

    open spec fn view(&self) -> SnapshotView {
        SnapshotView {
            grid: self.grid@.map_values(|row: Vec<Cell>| row@),
            cursor_row: self.cursor_row as int,
            cursor_col: self.cursor_col as int,
            cursor_visible: self.cursor_visible,
            width: self.width as int,
            height: self.height as int,
        }
    }
}

} // verus!
