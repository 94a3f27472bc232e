//! A single grid unit: reveal/flag state plus hidden content.

use vstd::prelude::*;

use crate::game::Point;

verus! {

/// Whether the player has revealed or flagged the cell.  Initial: `Closed`.
#[derive(Debug, PartialEq, Eq, Structural, Copy, Clone)]
pub enum CellState {
    Closed,
    Opened,
    Flagged,
}

/// What the cell hides: nothing, a mine, or the count of neighbouring mines.
#[derive(Debug, PartialEq, Eq, Structural, Copy, Clone)]
pub enum CellContent {
    Empty,
    Mine,
    Number(u8),
}

/// One cell of the grid.  Owned exclusively by the field.
#[derive(Debug, Copy, Clone)]
pub struct Cell {
    pub state: CellState,
    pub content: CellContent,
    pub position: Point,
}

impl Cell {
    /// A number cell always carries a count between 1 and 8; a count of zero
    /// is represented by `Empty`.
    pub open spec fn wf(self) -> bool {
        self.content matches CellContent::Number(n) ==> 1 <= n <= 8
    }
}

// reads
impl Cell {
    pub fn state(&self) -> (s: CellState)
        ensures
            s == self.state,
    {
        self.state
    }

    pub fn position(&self) -> (p: Point)
        ensures
            p == self.position,
    {
        self.position
    }

    pub fn is_mine(&self) -> (b: bool)
        ensures
            b == (self.content == CellContent::Mine),
    {
        self.content == CellContent::Mine
    }

    pub fn is_empty(&self) -> (b: bool)
        ensures
            b == (self.content == CellContent::Empty),
    {
        self.content == CellContent::Empty
    }
}

// writes
impl Cell {
    /// A fresh closed, empty cell at `point`.
    pub fn new(point: Point) -> (c: Cell)
        ensures
            c == (Cell { state: CellState::Closed, content: CellContent::Empty, position: point }),
    {
        Cell { state: CellState::Closed, content: CellContent::Empty, position: point }
    }

    pub fn set_mine(&mut self)
        ensures
            *final(self) == (Cell { content: CellContent::Mine, ..*old(self) }),
    {
        self.content = CellContent::Mine;
    }

    /// Assign the neighbour-mine count; zero normalizes to `Empty`.
    pub fn set_number(&mut self, number: u8)
        requires
            number <= 8,
        ensures
            *final(self) == (Cell {
                content: if number > 0 {
                    CellContent::Number(number)
                } else {
                    CellContent::Empty
                },
                ..*old(self)
            }),
            final(self).wf(),
    {
        if number > 0 {
            self.content = CellContent::Number(number);
        } else {
            self.content = CellContent::Empty;
        }
    }

    pub fn open(&mut self)
        ensures
            *final(self) == (Cell { state: CellState::Opened, ..*old(self) }),
    {
        self.state = CellState::Opened;
    }

    pub fn flag(&mut self)
        ensures
            *final(self) == (Cell { state: CellState::Flagged, ..*old(self) }),
    {
        self.state = CellState::Flagged;
    }

    pub fn unflag(&mut self)
        ensures
            *final(self) == (Cell { state: CellState::Closed, ..*old(self) }),
    {
        self.state = CellState::Closed;
    }
}

} // verus!
